use std::cell::RefCell;

use delta::annotate::{Annotator, Highlighter, PlainHighlighter};
use delta::config::Config;
use delta::hunk::Hunk;
use delta::run::annotate_lines;
use delta::span::Span;
use delta::style::{Foreground, Highlight, Rgb, Side, StyleSpan};

fn config() -> Config {
    Config {
        minimum_pairing_similarity: 400_000,
        tab_width: 4,
        true_color_enabled: true,
        max_line_length_for_diffing: 512,
    }
}

fn plain() -> Highlight {
    Highlight { foreground: Foreground::Default, bold: false }
}

fn name() -> Highlight {
    Highlight { foreground: Foreground::Color(Rgb { red: 200, green: 200, blue: 0 }), bold: false }
}

fn number() -> Highlight {
    Highlight { foreground: Foreground::Color(Rgb { red: 0, green: 200, blue: 200 }), bold: true }
}

/// Colours a leading word as a name and a trailing digit as a number, and
/// notes what it was asked.
struct Assignments {
    asked: RefCell<Vec<(Vec<u8>, Vec<u8>)>>,
}

impl Assignments {
    fn new() -> Assignments {
        Assignments { asked: RefCell::new(Vec::new()) }
    }
}

impl Highlighter for Assignments {
    fn highlight(&self, text: &[u8], language: &[u8]) -> Vec<StyleSpan> {
        self.asked.borrow_mut().push((text.to_vec(), language.to_vec()));
        let n = text.len();
        let word = text.iter().take_while(|b| b.is_ascii_alphabetic()).count();
        if word > 0 && word + 1 < n && text[n - 1].is_ascii_digit() {
            vec![
                Span { start: 0, end: word, tag: name() },
                Span { start: word, end: n - 1, tag: plain() },
                Span { start: n - 1, end: n, tag: number() },
            ]
        } else {
            vec![Span { start: 0, end: n, tag: plain() }]
        }
    }
}

/// Answers with spans that leave a gap.
struct Broken;

impl Highlighter for Broken {
    fn highlight(&self, text: &[u8], _language: &[u8]) -> Vec<StyleSpan> {
        vec![Span { start: 1, end: text.len() + 3, tag: name() }]
    }
}

fn run<H: Highlighter>(lines: &[&str], highlighter: &H, config: Config) -> Vec<Vec<Vec<u8>>> {
    let mut annotator = Annotator::new(config);
    let mut steps = Vec::new();
    for line in lines {
        steps.push(annotator.feed(line.as_bytes(), highlighter));
    }
    steps.push(annotator.finish());
    steps
}

fn text(lines: &[&str]) -> Vec<Vec<u8>> {
    lines.iter().map(|l| l.as_bytes().to_vec()).collect()
}

const NAME: &str = "\x1b[0;38;2;200;200;0m";
const PLAIN: &str = "\x1b[0m";
const RESET: &str = "\x1b[0m";
const NUMBER: &str = "\x1b[0;1;38;2;0;200;200m";
const NUMBER_REMOVED: &str = "\x1b[0;1;38;2;0;200;200;48;2;144;16;17m";
const NUMBER_ADDED: &str = "\x1b[0;1;38;2;0;200;200;48;2;0;96;0m";
const NAME_REMOVED: &str = "\x1b[0;38;2;200;200;0;48;2;144;16;17m";
const PLAIN_REMOVED: &str = "\x1b[0;48;2;144;16;17m";
const PLAIN_ADDED: &str = "\x1b[0;48;2;0;96;0m";

#[test]
fn a_changed_number_is_the_only_emphasis() {
    let steps = run(&["@@ -1 +1 @@", "-foo = 1", "+foo = 2"], &Assignments::new(), config());
    assert_eq!(steps[0], text(&["@@ -1 +1 @@\n"]));
    assert_eq!(steps[1], text(&[]));
    assert_eq!(steps[2], text(&[]));
    let removed = format!("{NAME}foo{RESET}{PLAIN} = {RESET}{NUMBER_REMOVED}1{RESET}\n");
    let added = format!("{NAME}foo{RESET}{PLAIN} = {RESET}{NUMBER_ADDED}2{RESET}\n");
    assert_eq!(steps[3], text(&[&removed, &added]));
}

#[test]
fn removed_lines_without_added_lines_are_marked_as_a_whole() {
    let steps = run(&["@@ -1,2 +0,0 @@", "-foo = 1", "-bar = 2"], &Assignments::new(), config());
    let first = format!(
        "{NAME_REMOVED}foo{RESET}{PLAIN_REMOVED} = {RESET}{NUMBER_REMOVED}1{RESET}\n"
    );
    let second = format!(
        "{NAME_REMOVED}bar{RESET}{PLAIN_REMOVED} = {RESET}{NUMBER_REMOVED}2{RESET}\n"
    );
    assert_eq!(steps[3], text(&[&first, &second]));
}

#[test]
fn unrelated_lines_are_marked_as_a_whole() {
    let steps = run(
        &["@@ -1 +1 @@", "-return compute(x);", "+# nothing alike"],
        &PlainHighlighter {},
        config(),
    );
    let removed = format!("{PLAIN_REMOVED}return compute(x);{RESET}\n");
    let added = format!("{PLAIN_ADDED}# nothing alike{RESET}\n");
    assert_eq!(steps[3], text(&[&removed, &added]));
}

#[test]
fn a_context_line_is_written_in_its_highlight_alone() {
    let quiet = run(&["@@ -1 +1 @@", " foo = 1"], &Assignments::new(), config());
    let busy = run(
        &["@@ -1,3 +1,3 @@", "-bar = 1", "+bar = 2", " foo = 1", "-x", "+y"],
        &Assignments::new(),
        config(),
    );
    let context = format!("{NAME}foo{RESET}{PLAIN} = {RESET}{NUMBER}1{RESET}\n");
    assert_eq!(quiet[1], text(&[&context]));
    assert_eq!(busy[3].len(), 3);
    assert_eq!(busy[3][2], context.as_bytes().to_vec());
}

#[test]
fn a_context_line_ends_the_wait_of_the_lines_before_it() {
    let steps = run(
        &["@@ -1,3 +1,3 @@", "-bar = 1", "+bar = 2", " same", "+more"],
        &PlainHighlighter {},
        config(),
    );
    let removed = format!("{PLAIN}bar = {RESET}{PLAIN_REMOVED}1{RESET}\n");
    let added = format!("{PLAIN}bar = {RESET}{PLAIN_ADDED}2{RESET}\n");
    let context = format!("{PLAIN}same{RESET}\n");
    let more = format!("{PLAIN_ADDED}more{RESET}\n");
    assert_eq!(steps[1], text(&[]));
    assert_eq!(steps[2], text(&[]));
    assert_eq!(steps[3], text(&[&removed, &added, &context]));
    assert_eq!(steps[4], text(&[]));
    assert_eq!(steps[5], text(&[&more]));
}

#[test]
fn lines_come_out_in_the_order_in_which_they_came_in() {
    let steps = run(
        &["@@ -1,2 +1,2 @@", "-a = 1", "+a = 2", "-b = 1", "+b = 2", "@@ -9 +9 @@"],
        &PlainHighlighter {},
        config(),
    );
    let line = |emphasis: &str, name: &str, digit: &str| {
        format!("{PLAIN}{name} = {RESET}{emphasis}{digit}{RESET}\n")
    };
    assert_eq!(
        steps[5],
        text(&[
            &line(PLAIN_REMOVED, "a", "1"),
            &line(PLAIN_ADDED, "a", "2"),
            &line(PLAIN_REMOVED, "b", "1"),
            &line(PLAIN_ADDED, "b", "2"),
            "@@ -9 +9 @@\n",
        ])
    );
    assert_eq!(steps[6], text(&[]));
}

#[test]
fn every_line_is_written_once() {
    let lines = [
        "commit 0123",
        "diff --git a/x.rs b/x.rs",
        "--- a/x.rs",
        "+++ b/x.rs",
        "@@ -1,4 +1,5 @@",
        " fn main() {",
        "-    let a = 1;",
        "-    let b = 2;",
        "+    let a = 10;",
        "+    let c = 3;",
        "+    let b = 2;",
        " }",
        "\\ No newline at end of file",
    ];
    let steps = run(&lines, &Assignments::new(), config());
    let written: usize = steps.iter().map(|s| s.len()).sum();
    assert_eq!(written, lines.len());
}

#[test]
fn lines_outside_a_hunk_are_passed_on_as_they_came() {
    let steps = run(
        &["-not in a hunk", "+nor this", " nor that", "", "--- a/x", "+after a file header"],
        &Assignments::new(),
        config(),
    );
    assert_eq!(steps[0], text(&["-not in a hunk\n"]));
    assert_eq!(steps[1], text(&["+nor this\n"]));
    assert_eq!(steps[2], text(&[" nor that\n"]));
    assert_eq!(steps[3], text(&["\n"]));
    assert_eq!(steps[4], text(&["--- a/x\n"]));
    assert_eq!(steps[5], text(&["+after a file header\n"]));
    assert_eq!(steps[6], text(&[]));
}

#[test]
fn a_file_header_ends_the_hunk() {
    let steps = run(
        &["@@ -1 +1 @@", "-old", "diff --git a/y b/y", "-passed on"],
        &PlainHighlighter {},
        config(),
    );
    let removed = format!("{PLAIN_REMOVED}old{RESET}\n");
    assert_eq!(steps[2], text(&[&removed, "diff --git a/y b/y\n"]));
    assert_eq!(steps[3], text(&["-passed on\n"]));
}

#[test]
fn another_line_in_a_hunk_is_passed_on_and_the_hunk_goes_on() {
    let steps = run(
        &["@@ -1 +1 @@", "-old", "\\ No newline at end of file", "+new"],
        &PlainHighlighter {},
        config(),
    );
    let removed = format!("{PLAIN_REMOVED}old{RESET}\n");
    let added = format!("{PLAIN_ADDED}new{RESET}\n");
    assert_eq!(steps[2], text(&[&removed, "\\ No newline at end of file\n"]));
    assert_eq!(steps[3], text(&[]));
    assert_eq!(steps[4], text(&[&added]));
}

#[test]
fn a_line_over_the_limit_is_marked_as_a_whole() {
    let mut short = config();
    short.max_line_length_for_diffing = 6;
    let steps = run(&["@@ -1 +1 @@", "-foo = 1", "+foo = 2"], &PlainHighlighter {}, short);
    let removed = format!("{PLAIN_REMOVED}foo = 1{RESET}\n");
    let added = format!("{PLAIN_ADDED}foo = 2{RESET}\n");
    assert_eq!(steps[3], text(&[&removed, &added]));
    let mut exact = config();
    exact.max_line_length_for_diffing = 7;
    let steps = run(&["@@ -1 +1 @@", "-foo = 1", "+foo = 2"], &PlainHighlighter {}, exact);
    let removed = format!("{PLAIN}foo = {RESET}{PLAIN_REMOVED}1{RESET}\n");
    let added = format!("{PLAIN}foo = {RESET}{PLAIN_ADDED}2{RESET}\n");
    assert_eq!(steps[3], text(&[&removed, &added]));
}

#[test]
fn colors_come_down_where_the_display_has_256() {
    let mut few = config();
    few.true_color_enabled = false;
    let steps = run(&["@@ -1 +1 @@", "-foo = 1", "+foo = 2"], &Assignments::new(), few);
    let removed =
        "\x1b[0;38;5;184mfoo\x1b[0m\x1b[0m = \x1b[0m\x1b[0;1;38;5;44;48;5;124m1\x1b[0m\n";
    let added = "\x1b[0;38;5;184mfoo\x1b[0m\x1b[0m = \x1b[0m\x1b[0;1;38;5;44;48;5;28m2\x1b[0m\n";
    assert_eq!(steps[3], text(&[removed, added]));
}

#[test]
fn tabs_are_expanded_before_anything_else() {
    let mut narrow = config();
    narrow.tab_width = 2;
    let steps = run(&["@@ -1 +1 @@", " \tx"], &PlainHighlighter {}, narrow);
    let context = format!("{PLAIN}  x{RESET}\n");
    assert_eq!(steps[1], text(&[&context]));
}

#[test]
fn the_highlighter_is_asked_once_for_each_line_of_a_hunk() {
    let highlighter = Assignments::new();
    run(
        &[
            "diff --git a/src/x.rs b/src/x.rs",
            "--- a/src/x.rs",
            "+++ b/src/x.rs",
            "@@ -1,2 +1,2 @@",
            " \tkept",
            "-foo = 1",
            "+foo = 2",
            "diff --git a/y b/y.py",
            "--- /dev/null",
            "+++ b/y.py",
            "@@ -0,0 +1 @@",
            "+print(1)",
        ],
        &highlighter,
        config(),
    );
    let asked = highlighter.asked.borrow();
    assert_eq!(
        *asked,
        vec![
            (b"    kept".to_vec(), b"rs".to_vec()),
            (b"foo = 1".to_vec(), b"rs".to_vec()),
            (b"foo = 2".to_vec(), b"rs".to_vec()),
            (b"print(1)".to_vec(), b"py".to_vec()),
        ]
    );
}

#[test]
fn a_deleted_file_keeps_the_language_of_the_old_file() {
    let highlighter = Assignments::new();
    run(&["--- a/gone.c", "+++ /dev/null", "@@ -1 +0,0 @@", "-int x;"], &highlighter, config());
    assert_eq!(*highlighter.asked.borrow(), vec![(b"int x;".to_vec(), b"c".to_vec())]);
}

#[test]
fn a_highlight_that_does_not_partition_is_taken_as_plain() {
    let steps = run(&["@@ -1 +1 @@", "-foo = 1", "+foo = 2", " end"], &Broken, config());
    let removed = format!("{PLAIN}foo = {RESET}{PLAIN_REMOVED}1{RESET}\n");
    let added = format!("{PLAIN}foo = {RESET}{PLAIN_ADDED}2{RESET}\n");
    let context = format!("{PLAIN}end{RESET}\n");
    assert_eq!(steps[3], text(&[&removed, &added, &context]));
}

#[test]
fn the_plain_highlighter_gives_one_plain_span() {
    let highlighter = PlainHighlighter {};
    assert_eq!(
        highlighter.highlight(b"foo = 1", b"rs"),
        vec![Span { start: 0, end: 7, tag: plain() }]
    );
    assert_eq!(highlighter.highlight(b"", b""), vec![Span { start: 0, end: 0, tag: plain() }]);
}

#[test]
fn accept_takes_the_highlight_as_it_is_given() {
    let mut annotator = Annotator::new(config());
    assert_eq!(annotator.accept(b"@@ -1 +1 @@", vec![]), text(&["@@ -1 +1 @@\n"]));
    assert!(annotator.in_hunk);
    let styles = vec![
        Span { start: 0, end: 3, tag: name() },
        Span { start: 3, end: 6, tag: plain() },
        Span { start: 6, end: 7, tag: number() },
    ];
    assert_eq!(annotator.wanted_text(b"-foo = 1"), Some(b"foo = 1".to_vec()));
    assert_eq!(annotator.accept(b"-foo = 1", styles.clone()), text(&[]));
    assert_eq!(annotator.hunk.len(), 1);
    assert_eq!(annotator.wanted_text(b"index 1..2"), None);
    let removed = format!(
        "{NAME_REMOVED}foo{RESET}{PLAIN_REMOVED} = {RESET}{NUMBER_REMOVED}1{RESET}\n"
    );
    assert_eq!(annotator.accept(b"index 1..2", styles), text(&[&removed, "index 1..2\n"]));
    assert!(!annotator.in_hunk);
    assert_eq!(annotator.hunk.len(), 0);
    assert_eq!(annotator.wanted_text(b"-foo = 1"), None);
}

#[test]
fn flushing_writes_what_waits_and_finishing_leaves_the_hunk() {
    let mut annotator = Annotator::new(config());
    annotator.feed(b"@@ -1 +1 @@", &PlainHighlighter {});
    annotator.feed(b"+new", &PlainHighlighter {});
    let added = format!("{PLAIN_ADDED}new{RESET}\n");
    assert_eq!(annotator.flush(), text(&[&added]));
    assert_eq!(annotator.flush(), text(&[]));
    assert!(annotator.in_hunk);
    annotator.feed(b"+newer", &PlainHighlighter {});
    let added = format!("{PLAIN_ADDED}newer{RESET}\n");
    assert_eq!(annotator.finish(), text(&[&added]));
    assert!(!annotator.in_hunk);
}

#[test]
fn a_hunk_keeps_its_lines_in_order() {
    let mut hunk = Hunk::new();
    assert_eq!(hunk.len(), 0);
    let whole = |n: usize| vec![Span { start: 0, end: n, tag: plain() }];
    hunk.push(Side::Removed, b"a = 1".to_vec(), whole(5));
    hunk.push(Side::Added, b"a = 2".to_vec(), whole(5));
    hunk.push(Side::Added, b"zzz".to_vec(), whole(3));
    hunk.push(Side::Removed, b"b".to_vec(), whole(1));
    assert_eq!(hunk.len(), 4);
    assert_eq!(hunk.removed, vec![0, 3]);
    assert_eq!(hunk.added, vec![1, 2]);
    assert_eq!(hunk.lines[3].rank, 1);
    assert_eq!(hunk.lines[2].rank, 1);
    assert_eq!(hunk.scores(512), vec![vec![800_000, 0], vec![0, 0]]);
    assert_eq!(hunk.scores(4), vec![vec![0, 0], vec![0, 0]]);
    let rendered = hunk.render(&config());
    assert_eq!(
        rendered,
        text(&[
            &format!("{PLAIN}a = {RESET}{PLAIN_REMOVED}1{RESET}\n"),
            &format!("{PLAIN}a = {RESET}{PLAIN_ADDED}2{RESET}\n"),
            &format!("{PLAIN_ADDED}zzz{RESET}\n"),
            &format!("{PLAIN_REMOVED}b{RESET}\n"),
        ])
    );
    hunk.reset();
    assert_eq!(hunk.len(), 0);
    assert_eq!(hunk.render(&config()), text(&[]));
}

#[test]
fn a_whole_diff_is_annotated_in_order() {
    let lines = text(&[
        "diff --git a/x.rs b/x.rs",
        "@@ -1,3 +1,3 @@",
        " same",
        "-foo = 1",
        "+foo = 2",
        " end",
        "-gone",
    ]);
    let out = annotate_lines(&lines, &PlainHighlighter {}, config());
    assert_eq!(
        out,
        text(&[
            "diff --git a/x.rs b/x.rs\n",
            "@@ -1,3 +1,3 @@\n",
            &format!("{PLAIN}same{RESET}\n"),
            &format!("{PLAIN}foo = {RESET}{PLAIN_REMOVED}1{RESET}\n"),
            &format!("{PLAIN}foo = {RESET}{PLAIN_ADDED}2{RESET}\n"),
            &format!("{PLAIN}end{RESET}\n"),
            &format!("{PLAIN_REMOVED}gone{RESET}\n"),
        ])
    );
}

#[test]
fn a_whole_diff_gives_what_the_engine_gives_line_by_line() {
    let lines = [
        "--- a/x.rs",
        "+++ b/x.rs",
        "@@ -1,4 +1,5 @@",
        " fn main() {",
        "-    let a = 1;",
        "-    let b = 2;",
        "+    let a = 10;",
        "+    let c = 3;",
        "+    let b = 2;",
        " }",
    ];
    let whole = annotate_lines(&text(&lines), &Assignments::new(), config());
    let stepwise: Vec<Vec<u8>> =
        run(&lines, &Assignments::new(), config()).into_iter().flatten().collect();
    assert_eq!(whole, stepwise);
    assert_eq!(whole.len(), lines.len());
}

#[test]
fn no_lines_give_no_output() {
    assert_eq!(annotate_lines(&vec![], &PlainHighlighter {}, config()), text(&[]));
}
