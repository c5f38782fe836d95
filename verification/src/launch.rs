//! What the program does with what it was asked for.

use vstd::prelude::*;

verus! {

/// The code with which the program ends when it was used wrongly or met a
/// real problem. 1 is kept for "the two files differ".
pub const ERROR_EXIT_CODE: i32 = 2;

/// What was asked for on the command line, as far as it decides what the
/// program does.
#[derive(Clone, Copy, Debug, PartialEq, Eq)]
pub struct Request {
    pub list_languages: bool,
    pub list_syntax_themes: bool,
    pub show_syntax_themes: bool,
    pub show_themes: bool,
    pub show_colors: bool,
    pub parse_ansi: bool,
    pub show_config: bool,
    /// Whether a first file to compare was named.
    pub minus_file: bool,
    /// Whether a second file to compare was named.
    pub plus_file: bool,
}

/// The things that the program can do in place of annotating a diff.
#[derive(Clone, Copy, Debug, PartialEq, Eq)]
pub enum Subcommand {
    ListLanguages,
    ListSyntaxThemes,
    ShowSyntaxThemes,
    ShowThemes,
    ShowColors,
    ParseAnsi,
}

/// What the program is to do.
#[derive(Clone, Copy, Debug, PartialEq, Eq)]
pub enum Plan {
    /// Run a subcommand, and end.
    Run(Subcommand),
    /// Print the options in force, and end.
    ShowConfig,
    /// Compare the two files that were named.
    DiffFiles,
    /// Only one file was named: say how the program is used, and end
    /// with the code for an error.
    Usage,
    /// Annotate the diff that comes in on standard input.
    Annotate,
}

/// The subcommand that was asked for, the first in this order where
/// several were: list languages, list syntax themes, show syntax themes,
/// show themes, show colours, parse ANSI.
pub open spec fn subcommand_of(request: Request) -> Option<Subcommand> {
    if request.list_languages {
        Some(Subcommand::ListLanguages)
    } else if request.list_syntax_themes {
        Some(Subcommand::ListSyntaxThemes)
    } else if request.show_syntax_themes {
        Some(Subcommand::ShowSyntaxThemes)
    } else if request.show_themes {
        Some(Subcommand::ShowThemes)
    } else if request.show_colors {
        Some(Subcommand::ShowColors)
    } else if request.parse_ansi {
        Some(Subcommand::ParseAnsi)
    } else {
        None
    }
}

/// What the program is to do: a subcommand goes before everything, then
/// showing the options, then the files that were named; with none of
/// these it annotates its input.
pub open spec fn plan_of(request: Request) -> Plan {
    match subcommand_of(request) {
        Some(subcommand) => Plan::Run(subcommand),
        None => if request.show_config {
            Plan::ShowConfig
        } else if request.minus_file && request.plus_file {
            Plan::DiffFiles
        } else if request.minus_file || request.plus_file {
            Plan::Usage
        } else {
            Plan::Annotate
        },
    }
}

/// The subcommand that was asked for, if one was.
pub fn subcommand(request: &Request) -> (chosen: Option<Subcommand>)
    ensures
        chosen == subcommand_of(*request),
{
    if request.list_languages {
        Some(Subcommand::ListLanguages)
    } else if request.list_syntax_themes {
        Some(Subcommand::ListSyntaxThemes)
    } else if request.show_syntax_themes {
        Some(Subcommand::ShowSyntaxThemes)
    } else if request.show_themes {
        Some(Subcommand::ShowThemes)
    } else if request.show_colors {
        Some(Subcommand::ShowColors)
    } else if request.parse_ansi {
        Some(Subcommand::ParseAnsi)
    } else {
        None
    }
}

/// What the program is to do.
pub fn plan(request: &Request) -> (chosen: Plan)
    ensures
        chosen == plan_of(*request),
{
    match subcommand(request) {
        Some(subcommand) => Plan::Run(subcommand),
        None => {
            if request.show_config {
                Plan::ShowConfig
            } else if request.minus_file && request.plus_file {
                Plan::DiffFiles
            } else if request.minus_file || request.plus_file {
                Plan::Usage
            } else {
                Plan::Annotate
            }
        },
    }
}

/// How a subcommand came back.
#[derive(Clone, Copy, Debug, PartialEq, Eq)]
pub enum Finished {
    /// It did what it was to do.
    Done,
    /// Whoever read its output stopped reading.
    SinkClosed,
    /// It failed.
    Failed,
}

/// How the program ends after a subcommand.
#[derive(Clone, Copy, Debug, PartialEq, Eq)]
pub enum Ending {
    /// End with this code.
    Exit(i32),
    /// Report the failure, and end with the code for an error.
    Fatal,
}

/// How the program ends after a subcommand: with 0 where it did its work
/// or its reader stopped reading, which is no error; a failure is fatal.
pub open spec fn ending_of(finished: Finished) -> Ending {
    match finished {
        Finished::Done => Ending::Exit(0),
        Finished::SinkClosed => Ending::Exit(0),
        Finished::Failed => Ending::Fatal,
    }
}

/// How the program ends after a subcommand.
pub fn ending(finished: Finished) -> (end: Ending)
    ensures
        end == ending_of(finished),
{
    match finished {
        Finished::Done => Ending::Exit(0),
        Finished::SinkClosed => Ending::Exit(0),
        Finished::Failed => Ending::Fatal,
    }
}

} // verus!
