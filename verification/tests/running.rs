use delta::annotate::PlainHighlighter;
use delta::config::Config;
use delta::launch::{
    ending, plan, subcommand, Ending, Finished, Plan, Request, Subcommand, ERROR_EXIT_CODE,
};
use delta::session::{exit_code, Outcome, Session, WriteResult};

fn config() -> Config {
    Config {
        minimum_pairing_similarity: 400_000,
        tab_width: 4,
        true_color_enabled: true,
        max_line_length_for_diffing: 512,
    }
}

/// Runs the lines through a session against a sink that answers the writes
/// with `answers`, in order, and takes every write after them. Gives what
/// the sink was handed, and the outcome.
fn drive(lines: &[&str], answers: &[WriteResult]) -> (Vec<Vec<u8>>, Option<Outcome>) {
    let mut session = Session::new(config());
    let mut handed = Vec::new();
    let mut input = lines.iter();
    loop {
        loop {
            let bytes = match session.next_write() {
                Some(bytes) => bytes.clone(),
                None => break,
            };
            let answer = answers.get(handed.len()).copied().unwrap_or(WriteResult::Written);
            handed.push(bytes);
            session.wrote(answer);
        }
        if session.outcome().is_some() {
            break;
        }
        match input.next() {
            Some(line) => session.offer(line.as_bytes(), &PlainHighlighter {}),
            None => session.end_input(),
        }
    }
    (handed, session.outcome())
}

#[test]
fn a_run_completes_when_everything_is_written() {
    let (handed, outcome) = drive(&["one", "two", "three"], &[]);
    assert_eq!(handed, vec![b"one\n".to_vec(), b"two\n".to_vec(), b"three\n".to_vec()]);
    assert_eq!(outcome, Some(Outcome::Completed));
}

#[test]
fn a_run_without_input_completes_at_once() {
    let (handed, outcome) = drive(&[], &[]);
    assert_eq!(handed, Vec::<Vec<u8>>::new());
    assert_eq!(outcome, Some(Outcome::Completed));
}

#[test]
fn a_sink_that_closes_on_the_third_line_ends_the_run_early() {
    let answers = [WriteResult::Written, WriteResult::Written, WriteResult::Closed];
    let (handed, outcome) = drive(&["one", "two", "three", "four", "five"], &answers);
    assert_eq!(handed, vec![b"one\n".to_vec(), b"two\n".to_vec(), b"three\n".to_vec()]);
    assert_eq!(outcome, Some(Outcome::ClosedEarly));
}

#[test]
fn nothing_is_written_after_the_sink_has_closed() {
    let mut session = Session::new(config());
    session.offer(b"@@ -1 +1 @@", &PlainHighlighter {});
    session.offer(b"-old", &PlainHighlighter {});
    session.offer(b"+new", &PlainHighlighter {});
    assert_eq!(session.next_write(), Some(&b"@@ -1 +1 @@\n".to_vec()));
    session.wrote(WriteResult::Closed);
    assert_eq!(session.outcome(), Some(Outcome::ClosedEarly));
    assert_eq!(session.next_write(), None);
    session.offer(b" more", &PlainHighlighter {});
    assert_eq!(session.next_write(), None);
    session.end_input();
    assert_eq!(session.next_write(), None);
    session.wrote(WriteResult::Written);
    session.read_failed();
    assert_eq!(session.outcome(), Some(Outcome::ClosedEarly));
}

#[test]
fn a_write_that_fails_makes_the_run_fail() {
    let answers = [WriteResult::Written, WriteResult::Failed];
    let (handed, outcome) = drive(&["one", "two", "three"], &answers);
    assert_eq!(handed.len(), 2);
    assert_eq!(outcome, Some(Outcome::Failed));
}

#[test]
fn a_read_that_fails_makes_the_run_fail() {
    let mut session = Session::new(config());
    session.offer(b"one", &PlainHighlighter {});
    session.read_failed();
    assert_eq!(session.outcome(), Some(Outcome::Failed));
    assert_eq!(session.next_write(), None);
}

#[test]
fn the_lines_that_wait_are_written_when_the_input_ends() {
    let mut session = Session::new(config());
    session.take(b"@@ -1 +1 @@", vec![]);
    session.take(b"+new", vec![]);
    assert_eq!(session.next_write(), Some(&b"@@ -1 +1 @@\n".to_vec()));
    session.wrote(WriteResult::Written);
    assert_eq!(session.next_write(), None);
    assert_eq!(session.outcome(), None);
    session.end_input();
    assert_eq!(session.outcome(), None);
    assert_eq!(session.next_write(), Some(&b"\x1b[0;48;2;0;96;0mnew\x1b[0m\n".to_vec()));
    session.wrote(WriteResult::Written);
    assert_eq!(session.outcome(), Some(Outcome::Completed));
}

#[test]
fn a_report_without_a_write_changes_nothing() {
    let mut session = Session::new(config());
    session.wrote(WriteResult::Failed);
    assert_eq!(session.outcome(), None);
    session.wrote(WriteResult::Closed);
    assert_eq!(session.outcome(), None);
    session.end_input();
    assert_eq!(session.outcome(), Some(Outcome::Completed));
}

#[test]
fn only_a_failure_ends_the_program_with_an_error() {
    assert_eq!(exit_code(Outcome::Completed), 0);
    assert_eq!(exit_code(Outcome::ClosedEarly), 0);
    assert_eq!(exit_code(Outcome::Failed), 2);
    assert_eq!(ERROR_EXIT_CODE, 2);
}

fn nothing() -> Request {
    Request {
        list_languages: false,
        list_syntax_themes: false,
        show_syntax_themes: false,
        show_themes: false,
        show_colors: false,
        parse_ansi: false,
        show_config: false,
        minus_file: false,
        plus_file: false,
    }
}

#[test]
fn without_a_request_the_input_is_annotated() {
    assert_eq!(plan(&nothing()), Plan::Annotate);
    assert_eq!(subcommand(&nothing()), None);
}

#[test]
fn each_subcommand_is_run_when_asked_for() {
    let cases = [
        (Request { list_languages: true, ..nothing() }, Subcommand::ListLanguages),
        (Request { list_syntax_themes: true, ..nothing() }, Subcommand::ListSyntaxThemes),
        (Request { show_syntax_themes: true, ..nothing() }, Subcommand::ShowSyntaxThemes),
        (Request { show_themes: true, ..nothing() }, Subcommand::ShowThemes),
        (Request { show_colors: true, ..nothing() }, Subcommand::ShowColors),
        (Request { parse_ansi: true, ..nothing() }, Subcommand::ParseAnsi),
    ];
    for (request, expected) in cases {
        assert_eq!(subcommand(&request), Some(expected));
        assert_eq!(plan(&request), Plan::Run(expected));
    }
}

#[test]
fn the_first_subcommand_in_order_wins() {
    let request = Request { show_colors: true, show_themes: true, parse_ansi: true, ..nothing() };
    assert_eq!(plan(&request), Plan::Run(Subcommand::ShowThemes));
    let request = Request {
        list_languages: true,
        list_syntax_themes: true,
        show_config: true,
        minus_file: true,
        ..nothing()
    };
    assert_eq!(plan(&request), Plan::Run(Subcommand::ListLanguages));
}

#[test]
fn showing_the_options_goes_before_the_files() {
    let request = Request { show_config: true, minus_file: true, plus_file: true, ..nothing() };
    assert_eq!(plan(&request), Plan::ShowConfig);
}

#[test]
fn two_files_are_compared_and_one_file_is_a_mistake() {
    assert_eq!(plan(&Request { minus_file: true, plus_file: true, ..nothing() }), Plan::DiffFiles);
    assert_eq!(plan(&Request { minus_file: true, ..nothing() }), Plan::Usage);
    assert_eq!(plan(&Request { plus_file: true, ..nothing() }), Plan::Usage);
}

#[test]
fn a_subcommand_whose_reader_left_ends_well() {
    assert_eq!(ending(Finished::Done), Ending::Exit(0));
    assert_eq!(ending(Finished::SinkClosed), Ending::Exit(0));
    assert_eq!(ending(Finished::Failed), Ending::Fatal);
}
