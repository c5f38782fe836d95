use delta::edit::{EditSpan, EditTag};
use delta::emit::{
    nearest_cube_color, pass_line, push_bytes, push_color, push_control_sequence, push_decimal,
    render_line,
};
use delta::span::Span;
use delta::style::{
    check_partition, combine, merge, merge_whole, normalize, Background, Foreground, Highlight,
    MergedSpan, Rgb, Side, Style, StyleSpan,
};

fn plain() -> Highlight {
    Highlight { foreground: Foreground::Default, bold: false }
}

fn color(red: u8, green: u8, blue: u8) -> Highlight {
    Highlight { foreground: Foreground::Color(Rgb { red, green, blue }), bold: false }
}

fn styled(start: usize, end: usize, tag: Highlight) -> StyleSpan {
    Span { start, end, tag }
}

fn edit(start: usize, end: usize, tag: EditTag) -> EditSpan {
    Span { start, end, tag }
}

fn merged(start: usize, end: usize, highlight: Highlight, background: Background) -> MergedSpan {
    Span { start, end, tag: Style { highlight, background } }
}

#[test]
fn the_plain_highlight_is_plain() {
    assert_eq!(Highlight::plain(), plain());
}

#[test]
fn emphasis_goes_behind_changed_text_only() {
    let h = color(1, 2, 3);
    let style = |background| Style { highlight: h, background };
    assert_eq!(combine(h, EditTag::Changed, Side::Removed), style(Background::Removed));
    assert_eq!(combine(h, EditTag::Changed, Side::Added), style(Background::Added));
    assert_eq!(combine(h, EditTag::Changed, Side::Context), style(Background::Unmarked));
    assert_eq!(combine(h, EditTag::Unchanged, Side::Removed), style(Background::Unmarked));
    assert_eq!(combine(h, EditTag::Unchanged, Side::Added), style(Background::Unmarked));
    assert_eq!(combine(h, EditTag::Unchanged, Side::Context), style(Background::Unmarked));
}

#[test]
fn partitions_are_told_from_other_spans() {
    let p = plain();
    assert!(check_partition(&vec![styled(0, 3, p), styled(3, 7, p)], 7));
    assert!(check_partition(&vec![styled(0, 7, p)], 7));
    assert!(check_partition(&vec![styled(0, 0, p)], 0));
    // a gap, an overlap, a wrong start, a wrong end, an empty span, no span
    assert!(!check_partition(&vec![styled(0, 3, p), styled(4, 7, p)], 7));
    assert!(!check_partition(&vec![styled(0, 4, p), styled(3, 7, p)], 7));
    assert!(!check_partition(&vec![styled(1, 7, p)], 7));
    assert!(!check_partition(&vec![styled(0, 6, p)], 7));
    assert!(!check_partition(&vec![styled(0, 8, p)], 7));
    assert!(!check_partition(&vec![styled(0, 3, p), styled(3, 3, p), styled(3, 7, p)], 7));
    assert!(!check_partition(&Vec::<StyleSpan>::new(), 7));
    assert!(!check_partition(&Vec::<StyleSpan>::new(), 0));
    assert!(!check_partition(&vec![styled(0, 0, p), styled(0, 0, p)], 0));
    assert!(!check_partition(&vec![styled(0, 1, p)], 0));
}

#[test]
fn a_highlight_that_partitions_is_kept() {
    let spans = vec![styled(0, 3, color(9, 9, 9)), styled(3, 7, plain())];
    assert_eq!(normalize(spans.clone(), 7), spans);
}

#[test]
fn a_highlight_that_does_not_partition_gives_way_to_one_plain_span() {
    let spans = vec![styled(0, 3, color(9, 9, 9)), styled(4, 7, plain())];
    assert_eq!(normalize(spans, 7), vec![styled(0, 7, plain())]);
    assert_eq!(normalize(vec![], 0), vec![styled(0, 0, plain())]);
    assert_eq!(normalize(vec![], 5), vec![styled(0, 5, plain())]);
}

#[test]
fn one_changed_token_under_three_highlights() {
    // "foo = 1": the name, the operator with its spaces, the number
    let name = color(200, 200, 0);
    let number = color(0, 200, 200);
    let edits = vec![edit(0, 6, EditTag::Unchanged), edit(6, 7, EditTag::Changed)];
    let styles = vec![styled(0, 3, name), styled(3, 6, plain()), styled(6, 7, number)];
    assert_eq!(
        merge(&edits, &styles, Side::Removed),
        vec![
            merged(0, 3, name, Background::Unmarked),
            merged(3, 6, plain(), Background::Unmarked),
            merged(6, 7, number, Background::Removed),
        ]
    );
    assert_eq!(
        merge(&edits, &styles, Side::Added),
        vec![
            merged(0, 3, name, Background::Unmarked),
            merged(3, 6, plain(), Background::Unmarked),
            merged(6, 7, number, Background::Added),
        ]
    );
}

#[test]
fn boundaries_that_do_not_meet_cut_each_other() {
    let a = color(1, 1, 1);
    let b = color(2, 2, 2);
    let edits = vec![
        edit(0, 4, EditTag::Unchanged),
        edit(4, 9, EditTag::Changed),
        edit(9, 12, EditTag::Unchanged),
    ];
    let styles = vec![styled(0, 2, a), styled(2, 6, b), styled(6, 12, a)];
    assert_eq!(
        merge(&edits, &styles, Side::Added),
        vec![
            merged(0, 2, a, Background::Unmarked),
            merged(2, 4, b, Background::Unmarked),
            merged(4, 6, b, Background::Added),
            merged(6, 9, a, Background::Added),
            merged(9, 12, a, Background::Unmarked),
        ]
    );
}

#[test]
fn merged_spans_cover_the_line_once() {
    let a = color(1, 1, 1);
    let edits = vec![
        edit(0, 1, EditTag::Changed),
        edit(1, 5, EditTag::Unchanged),
        edit(5, 20, EditTag::Changed),
    ];
    let styles =
        vec![styled(0, 3, a), styled(3, 4, plain()), styled(4, 19, a), styled(19, 20, plain())];
    let spans = merge(&edits, &styles, Side::Removed);
    assert!(check_partition(&spans, 20));
    assert_eq!(spans.len(), 6);
}

#[test]
fn the_empty_line_merges_into_one_span_of_no_length() {
    let edits = vec![edit(0, 0, EditTag::Unchanged)];
    let styles = vec![styled(0, 0, plain())];
    assert_eq!(
        merge(&edits, &styles, Side::Removed),
        vec![merged(0, 0, plain(), Background::Unmarked)]
    );
    assert_eq!(
        merge_whole(&styles, 0, Side::Added),
        vec![merged(0, 0, plain(), Background::Added)]
    );
}

#[test]
fn a_line_that_is_not_paired_is_marked_as_a_whole() {
    let a = color(1, 1, 1);
    let styles = vec![styled(0, 3, a), styled(3, 7, plain())];
    assert_eq!(
        merge_whole(&styles, 7, Side::Removed),
        vec![merged(0, 3, a, Background::Removed), merged(3, 7, plain(), Background::Removed)]
    );
    assert_eq!(
        merge_whole(&styles, 7, Side::Added),
        vec![merged(0, 3, a, Background::Added), merged(3, 7, plain(), Background::Added)]
    );
    assert_eq!(
        merge_whole(&styles, 7, Side::Context),
        vec![merged(0, 3, a, Background::Unmarked), merged(3, 7, plain(), Background::Unmarked)]
    );
}

#[test]
fn numbers_are_written_in_base_ten() {
    let written = |n: u8| {
        let mut out = b"x".to_vec();
        push_decimal(&mut out, n);
        out
    };
    assert_eq!(written(0), b"x0".to_vec());
    assert_eq!(written(7), b"x7".to_vec());
    assert_eq!(written(10), b"x10".to_vec());
    assert_eq!(written(99), b"x99".to_vec());
    assert_eq!(written(100), b"x100".to_vec());
    assert_eq!(written(109), b"x109".to_vec());
    assert_eq!(written(255), b"x255".to_vec());
}

#[test]
fn colors_come_down_to_the_cube() {
    assert_eq!(nearest_cube_color(Rgb { red: 0, green: 0, blue: 0 }), 16);
    assert_eq!(nearest_cube_color(Rgb { red: 255, green: 255, blue: 255 }), 231);
    assert_eq!(nearest_cube_color(Rgb { red: 255, green: 0, blue: 0 }), 196);
    assert_eq!(nearest_cube_color(Rgb { red: 0, green: 255, blue: 0 }), 46);
    assert_eq!(nearest_cube_color(Rgb { red: 0, green: 0, blue: 255 }), 21);
    assert_eq!(nearest_cube_color(Rgb { red: 42, green: 43, blue: 86 }), 16 + 6 + 2);
    assert_eq!(nearest_cube_color(Rgb { red: 144, green: 16, blue: 17 }), 16 + 36 * 3);
    assert_eq!(nearest_cube_color(Rgb { red: 0, green: 96, blue: 0 }), 16 + 6 * 2);
}

#[test]
fn a_color_is_selected_with_all_its_bits_or_by_its_number() {
    let mut out = Vec::new();
    push_color(&mut out, Rgb { red: 255, green: 0, blue: 18 }, 38, true);
    assert_eq!(out, b";38;2;255;0;18".to_vec());
    let mut out = Vec::new();
    push_color(&mut out, Rgb { red: 255, green: 0, blue: 18 }, 48, false);
    assert_eq!(out, b";48;5;196".to_vec());
}

#[test]
fn a_control_sequence_names_what_the_style_asks_for() {
    let sequence = |style: Style, true_color: bool| {
        let mut out = Vec::new();
        push_control_sequence(&mut out, style, true_color);
        out
    };
    let bold_red = Highlight {
        foreground: Foreground::Color(Rgb { red: 200, green: 10, blue: 5 }),
        bold: true,
    };
    assert_eq!(
        sequence(Style { highlight: plain(), background: Background::Unmarked }, true),
        b"\x1b[0m".to_vec()
    );
    assert_eq!(
        sequence(Style { highlight: bold_red, background: Background::Unmarked }, true),
        b"\x1b[0;1;38;2;200;10;5m".to_vec()
    );
    assert_eq!(
        sequence(Style { highlight: bold_red, background: Background::Removed }, true),
        b"\x1b[0;1;38;2;200;10;5;48;2;144;16;17m".to_vec()
    );
    assert_eq!(
        sequence(Style { highlight: plain(), background: Background::Added }, true),
        b"\x1b[0;48;2;0;96;0m".to_vec()
    );
    assert_eq!(
        sequence(Style { highlight: bold_red, background: Background::Added }, false),
        b"\x1b[0;1;38;5;160;48;5;28m".to_vec()
    );
    assert_eq!(
        sequence(Style { highlight: plain(), background: Background::Removed }, false),
        b"\x1b[0;48;5;124m".to_vec()
    );
}

#[test]
fn bytes_are_appended() {
    let mut out = b"ab".to_vec();
    push_bytes(&mut out, b"0123456", 2, 5);
    assert_eq!(out, b"ab234".to_vec());
    push_bytes(&mut out, b"0123456", 7, 7);
    assert_eq!(out, b"ab234".to_vec());
}

#[test]
fn a_styled_line_is_written_span_by_span() {
    let name = color(200, 200, 0);
    let spans = vec![
        merged(0, 3, name, Background::Unmarked),
        merged(3, 6, plain(), Background::Unmarked),
        merged(6, 7, plain(), Background::Removed),
    ];
    assert_eq!(
        render_line(b"foo = 1", &spans, true),
        b"\x1b[0;38;2;200;200;0mfoo\x1b[0m\x1b[0m = \x1b[0m\x1b[0;48;2;144;16;17m1\x1b[0m\n".to_vec()
    );
    assert_eq!(
        render_line(b"foo = 1", &spans, false),
        b"\x1b[0;38;5;184mfoo\x1b[0m\x1b[0m = \x1b[0m\x1b[0;48;5;124m1\x1b[0m\n".to_vec()
    );
}

#[test]
fn an_empty_styled_line_is_a_reset_and_a_line_break() {
    let spans = vec![merged(0, 0, plain(), Background::Unmarked)];
    assert_eq!(render_line(b"", &spans, true), b"\x1b[0m\x1b[0m\n".to_vec());
}

#[test]
fn a_line_is_passed_on_as_it_came() {
    assert_eq!(pass_line(b"diff --git a/x b/x"), b"diff --git a/x b/x\n".to_vec());
    assert_eq!(pass_line(b""), b"\n".to_vec());
    assert_eq!(pass_line(b"\x1b[31mred"), b"\x1b[31mred\n".to_vec());
}
