//! A run of the engine against a sink that may close: what is to be
//! written next, and how the run ends.

use vstd::prelude::*;
use crate::config::Config;
use crate::annotate::{emitted_by, steps, Annotator, Highlighter};
use crate::hunk::{rendered_hunk, Arrival};
use crate::score::line_texts;
use crate::style::StyleSpan;

verus! {

/// What the sink said of one write.
#[derive(Clone, Copy, Debug, PartialEq, Eq)]
pub enum WriteResult {
    /// The bytes were taken.
    Written,
    /// The reader at the other end has gone.
    Closed,
    /// The write failed for another reason.
    Failed,
}

/// How a run ended.
#[derive(Clone, Copy, Debug, PartialEq, Eq)]
pub enum Outcome {
    /// The input ended and everything was written.
    Completed,
    /// The sink closed before everything was written. This is no error:
    /// whoever reads the output may stop reading when they have seen
    /// enough.
    ClosedEarly,
    /// Reading the input or writing the output failed.
    Failed,
}

/// A run: the engine, the lines that are still to be written, and the
/// outcome once there is one.
#[derive(Debug)]
pub struct Session {
    pub annotator: Annotator,
    /// The lines that came out of the engine since the queue was last
    /// empty. Once they are all written the queue is emptied.
    pub queue: Vec<Vec<u8>>,
    /// How many lines of the queue have been written.
    pub done: usize,
    pub input_ended: bool,
    pub outcome: Option<Outcome>,
}

/// The code with which a program ends a run: 0 where the run completed or
/// the sink closed early, and 2, the code for a real problem, where it
/// failed.
pub open spec fn exit_code_of(outcome: Outcome) -> i32 {
    match outcome {
        Outcome::Completed => 0,
        Outcome::ClosedEarly => 0,
        Outcome::Failed => 2,
    }
}

/// The code with which a program ends a run.
pub fn exit_code(outcome: Outcome) -> (code: i32)
    ensures
        code == exit_code_of(outcome),
{
    match outcome {
        Outcome::Completed => 0,
        Outcome::ClosedEarly => 0,
        Outcome::Failed => 2,
    }
}

impl Session {
    /// The lines that are still to be written, the next one first.
    pub open spec fn pending(self) -> Seq<Seq<u8>> {
        line_texts(self.queue@).skip(self.done as int)
    }

    /// The run is in order: once it has an outcome nothing is left to
    /// write, and it has completed only if the input has ended.
    pub open spec fn well_formed(self) -> bool {
        &&& self.annotator.well_formed()
        &&& self.done <= self.queue.len()
        &&& self.outcome is Some ==> self.pending().len() == 0
        &&& self.outcome == Some(Outcome::Completed) ==> self.input_ended
        &&& self.input_ended ==> self.annotator.hunk@.len() == 0
        &&& self.input_ended && self.pending().len() == 0 ==> self.outcome is Some
    }

    /// A run that has read nothing and written nothing.
    pub fn new(config: Config) -> (session: Session)
        ensures
            session.well_formed(),
            session.annotator.config == config,
            !session.annotator.in_hunk,
            session.annotator.language@ == Seq::<u8>::empty(),
            session.annotator.hunk@ == Seq::<Arrival>::empty(),
            session.pending() == Seq::<Seq<u8>>::empty(),
            !session.input_ended,
            session.outcome is None,
    {
        let session = Session {
            annotator: Annotator::new(config),
            queue: Vec::new(),
            done: 0,
            input_ended: false,
            outcome: None,
        };
        assert(session.pending() =~= Seq::<Seq<u8>>::empty());
        session
    }

    /// Whether the run still takes lines.
    pub open spec fn takes_input(self) -> bool {
        self.outcome is None && !self.input_ended
    }

    fn enqueue(&mut self, emitted: Vec<Vec<u8>>)
        requires
            old(self).done <= old(self).queue.len(),
        ensures
            final(self).pending() == old(self).pending() + line_texts(emitted@),
            final(self).done <= final(self).queue.len(),
            final(self).annotator == old(self).annotator,
            final(self).input_ended == old(self).input_ended,
            final(self).outcome == old(self).outcome,
    {
        let mut emitted = emitted;
        let ghost added = line_texts(emitted@);
        self.queue.append(&mut emitted);
        assert(self.pending() =~= old(self).pending() + added);
    }

    /// Takes the next line of input, with `styles` as the highlight of
    /// its text. What the engine writes on it joins the lines that are to
    /// be written. A run that has an outcome, or whose input has ended,
    /// takes no line: nothing changes.
    pub fn take(&mut self, line: &[u8], styles: Vec<StyleSpan>)
        requires
            old(self).well_formed(),
        ensures
            final(self).well_formed(),
            final(self).input_ended == old(self).input_ended,
            final(self).outcome == old(self).outcome,
            !old(self).takes_input() ==> final(self).annotator == old(self).annotator
                && final(self).pending() == old(self).pending(),
            old(self).takes_input() ==> steps(
                old(self).annotator,
                final(self).annotator,
                line@,
                styles@,
                emitted_by(
                    old(self).annotator.hunk@,
                    old(self).annotator.in_hunk,
                    line@,
                    styles@,
                    old(self).annotator.config,
                ),
            ) && final(self).pending() == old(self).pending() + emitted_by(
                old(self).annotator.hunk@,
                old(self).annotator.in_hunk,
                line@,
                styles@,
                old(self).annotator.config,
            ),
    {
        if self.outcome.is_some() || self.input_ended {
            return ;
        }
        let emitted = self.annotator.accept(line, styles);
        self.enqueue(emitted);
    }

    /// Takes the next line of input, and asks `highlighter` for the
    /// highlight of its text where it is a line of a hunk. Whatever the
    /// highlighter answers, the run goes on as `take` does with that
    /// answer.
    pub fn offer<H: Highlighter>(&mut self, line: &[u8], highlighter: &H)
        requires
            old(self).well_formed(),
        ensures
            final(self).well_formed(),
            final(self).input_ended == old(self).input_ended,
            final(self).outcome == old(self).outcome,
            !old(self).takes_input() ==> final(self).annotator == old(self).annotator
                && final(self).pending() == old(self).pending(),
            old(self).takes_input() ==> exists|styles: Seq<StyleSpan>|
                #![trigger emitted_by(
                    old(self).annotator.hunk@,
                    old(self).annotator.in_hunk,
                    line@,
                    styles,
                    old(self).annotator.config,
                )]
                steps(
                    old(self).annotator,
                    final(self).annotator,
                    line@,
                    styles,
                    emitted_by(
                        old(self).annotator.hunk@,
                        old(self).annotator.in_hunk,
                        line@,
                        styles,
                        old(self).annotator.config,
                    ),
                ) && final(self).pending() == old(self).pending() + emitted_by(
                    old(self).annotator.hunk@,
                    old(self).annotator.in_hunk,
                    line@,
                    styles,
                    old(self).annotator.config,
                ),
    {
        if self.outcome.is_some() || self.input_ended {
            return ;
        }
        let emitted = self.annotator.feed(line, highlighter);
        let ghost written = line_texts(emitted@);
        proof {
            let styles = choose|styles: Seq<StyleSpan>| #[trigger]
                steps(old(self).annotator, self.annotator, line@, styles, written);
            assert(steps(old(self).annotator, self.annotator, line@, styles, written));
        }
        self.enqueue(emitted);
    }

    /// Ends the input. The lines that still wait in the engine join the
    /// lines that are to be written; where nothing is left to write, the
    /// run has completed. A run that has an outcome, or whose input has
    /// ended before, does not change.
    pub fn end_input(&mut self)
        requires
            old(self).well_formed(),
        ensures
            final(self).well_formed(),
            !old(self).takes_input() ==> *final(self) == *old(self),
            old(self).takes_input() ==> final(self).input_ended && final(self).pending()
                == old(self).pending() + rendered_hunk(
                old(self).annotator.hunk@,
                old(self).annotator.config,
            )
                && final(self).outcome == (if final(self).pending().len() == 0 {
                Some(Outcome::Completed)
            } else {
                None
            }),
    {
        if self.outcome.is_some() || self.input_ended {
            return ;
        }
        let emitted = self.annotator.finish();
        self.enqueue(emitted);
        self.input_ended = true;
        if self.done == self.queue.len() {
            self.outcome = Some(Outcome::Completed);
        }
    }

    /// Notes that reading the input failed: the run has failed, and what
    /// was still to be written is dropped. A run that has an outcome does
    /// not change.
    pub fn read_failed(&mut self)
        requires
            old(self).well_formed(),
        ensures
            final(self).well_formed(),
            old(self).outcome is Some ==> *final(self) == *old(self),
            old(self).outcome is None ==> final(self).outcome == Some(Outcome::Failed)
                && final(self).pending().len() == 0 && final(self).annotator == old(
                self,
            ).annotator && final(self).input_ended == old(self).input_ended,
    {
        if self.outcome.is_some() {
            return ;
        }
        self.stop(Outcome::Failed);
    }

    fn stop(&mut self, outcome: Outcome)
        requires
            old(self).well_formed(),
            outcome != Outcome::Completed,
        ensures
            final(self).well_formed(),
            final(self).outcome == Some(outcome),
            final(self).pending().len() == 0,
            final(self).annotator == old(self).annotator,
            final(self).input_ended == old(self).input_ended,
    {
        self.queue.clear();
        self.done = 0;
        self.outcome = Some(outcome);
    }

    /// The line that is to be written next, if there is one.
    pub fn next_write(&self) -> (next: Option<&Vec<u8>>)
        requires
            self.well_formed(),
        ensures
            next is Some <==> self.pending().len() > 0,
            next matches Some(bytes) ==> bytes@ == self.pending()[0],
            self.outcome is Some ==> next is None,
    {
        if self.done < self.queue.len() {
            Some(&self.queue[self.done])
        } else {
            None
        }
    }

    /// Notes what the sink said of the write of the line that was to be
    /// written next. A line that was taken is done with, and the run has
    /// completed where that was the last line and the input has ended. A
    /// sink that has closed ends the run early, and a write that failed
    /// makes the run fail; either way nothing more is to be written.
    /// Where no line was to be written, nothing changes.
    pub fn wrote(&mut self, result: WriteResult)
        requires
            old(self).well_formed(),
        ensures
            final(self).well_formed(),
            final(self).annotator == old(self).annotator,
            final(self).input_ended == old(self).input_ended,
            old(self).pending().len() == 0 ==> *final(self) == *old(self),
            old(self).pending().len() > 0 ==> match result {
                WriteResult::Written => final(self).pending() == old(self).pending().skip(1)
                    && final(self).outcome == (if old(self).input_ended && old(
                    self,
                ).pending().len() == 1 {
                    Some(Outcome::Completed)
                } else {
                    None
                }),
                WriteResult::Closed => final(self).pending().len() == 0 && final(self).outcome
                    == Some(Outcome::ClosedEarly),
                WriteResult::Failed => final(self).pending().len() == 0 && final(self).outcome
                    == Some(Outcome::Failed),
            },
    {
        if self.done >= self.queue.len() {
            return ;
        }
        match result {
            WriteResult::Written => {
                self.done = self.done + 1;
                assert(self.pending() =~= old(self).pending().skip(1));
                if self.done == self.queue.len() {
                    // Everything in the queue is written: its room is used again.
                    self.queue.clear();
                    self.done = 0;
                    assert(self.pending() =~= old(self).pending().skip(1));
                    if self.input_ended {
                        self.outcome = Some(Outcome::Completed);
                    }
                }
            },
            WriteResult::Closed => {
                self.stop(Outcome::ClosedEarly);
            },
            WriteResult::Failed => {
                self.stop(Outcome::Failed);
            },
        }
    }

    /// How the run ended, once it has.
    pub fn outcome(&self) -> (outcome: Option<Outcome>)
        ensures
            outcome == self.outcome,
    {
        self.outcome
    }
}

} // verus!
