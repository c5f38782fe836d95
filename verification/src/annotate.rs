//! The engine as a whole: line in, written lines out.

use vstd::prelude::*;
use crate::config::Config;
use crate::line::{classify, kind_of, Kind};
use crate::span::Span;
use crate::style::{
    lemma_merged_whole_line, merge_whole, merged_of, normalize, normalized, painted, plain,
    whole_line, Highlight, Side, StyleSpan,
};
use crate::hunk::{rendered_hunk, Arrival, Hunk};
use crate::score::line_texts;
use crate::emit::{
    lemma_partition_within, pass_line, passed_line, render_line, rendered_line,
};
use crate::prepare::{content, content_of, header_language, language_after};

verus! {

/// What colours the syntax of a line. The engine asks once for each line
/// of a hunk and makes sure itself that the answer partitions the line:
/// an answer that does not is replaced by one plain span.
pub trait Highlighter {
    /// The highlight of `text`, a line of a file in `language`.
    fn highlight(&self, text: &[u8], language: &[u8]) -> Vec<StyleSpan>;
}

/// The highlighter that knows no language: every line is plain.
pub struct PlainHighlighter {}

impl Highlighter for PlainHighlighter {
    fn highlight(&self, text: &[u8], language: &[u8]) -> (spans: Vec<StyleSpan>)
        ensures
            spans@ == seq![Span { start: 0usize, end: text.len(), tag: plain() }],
    {
        let mut spans: Vec<StyleSpan> = Vec::new();
        spans.push(Span { start: 0, end: text.len(), tag: Highlight::plain() });
        assert(spans@ =~= seq![Span { start: 0usize, end: text.len(), tag: plain() }]);
        spans
    }
}

/// The state of the engine between two lines.
#[derive(Debug)]
pub struct Annotator {
    pub config: Config,
    /// Whether a hunk header has been read and no file header since.
    pub in_hunk: bool,
    /// The language of the file that the lines belong to.
    pub language: Vec<u8>,
    /// The removed and added lines that wait to be paired.
    pub hunk: Hunk,
}

/// The side on which a line of kind `kind` stands in a hunk. Outside a
/// hunk no line stands on a side, and neither does a header or a line
/// that is none of the above.
pub open spec fn side_taken(in_hunk: bool, kind: Kind) -> Option<Side> {
    if !in_hunk {
        None
    } else {
        match kind {
            Kind::Removed => Some(Side::Removed),
            Kind::Added => Some(Side::Added),
            Kind::Context => Some(Side::Context),
            _ => None,
        }
    }
}

/// A hunk begins at a hunk header and ends at a file header.
pub open spec fn in_hunk_after(in_hunk: bool, kind: Kind) -> bool {
    match kind {
        Kind::HunkHeader => true,
        Kind::Header => false,
        _ => in_hunk,
    }
}

/// The language after a line: a file header may name a new one.
pub open spec fn language_next(language: Seq<u8>, line: Seq<u8>) -> Seq<u8> {
    if kind_of(line) == Kind::Header {
        language_after(language, line)
    } else {
        language
    }
}

/// The lines that wait after `line`: a removed or an added line of a hunk
/// joins those that wait; any other line leaves none waiting.
pub open spec fn waiting_after(
    waiting: Seq<Arrival>,
    in_hunk: bool,
    line: Seq<u8>,
    styles: Seq<StyleSpan>,
    config: Config,
) -> Seq<Arrival> {
    let text = content_of(line, config.tab_width as nat);
    match side_taken(in_hunk, kind_of(line)) {
        Some(Side::Removed) => waiting.push(
            (Side::Removed, text, normalized(styles, text.len() as int)),
        ),
        Some(Side::Added) => waiting.push(
            (Side::Added, text, normalized(styles, text.len() as int)),
        ),
        _ => Seq::empty(),
    }
}

/// A context line as it is written: its text in its highlight.
pub open spec fn rendered_context(line: Seq<u8>, styles: Seq<StyleSpan>, config: Config) -> Seq<
    u8,
> {
    let text = content_of(line, config.tab_width as nat);
    rendered_line(
        text,
        merged_of(
            whole_line(text.len() as int, Side::Context),
            normalized(styles, text.len() as int),
            Side::Context,
        ),
        config.true_color_enabled,
    )
}

/// What is written on `line`: nothing for a removed or an added line of a
/// hunk, which waits; for any other line the lines that waited, and then
/// the line itself, a context line of a hunk in its highlight and any
/// other line as it came.
pub open spec fn emitted_by(
    waiting: Seq<Arrival>,
    in_hunk: bool,
    line: Seq<u8>,
    styles: Seq<StyleSpan>,
    config: Config,
) -> Seq<Seq<u8>> {
    match side_taken(in_hunk, kind_of(line)) {
        Some(Side::Removed) => Seq::empty(),
        Some(Side::Added) => Seq::empty(),
        Some(Side::Context) => rendered_hunk(waiting, config).push(
            rendered_context(line, styles, config),
        ),
        None => rendered_hunk(waiting, config).push(passed_line(line)),
    }
}

/// The engine goes from `before` to `after` on `line`, given `styles` as
/// the highlight of its text, and writes `emitted`.
pub open spec fn steps(
    before: Annotator,
    after: Annotator,
    line: Seq<u8>,
    styles: Seq<StyleSpan>,
    emitted: Seq<Seq<u8>>,
) -> bool {
    &&& after.config == before.config
    &&& after.in_hunk == in_hunk_after(before.in_hunk, kind_of(line))
    &&& after.language@ == language_next(before.language@, line)
    &&& after.hunk@ == waiting_after(before.hunk@, before.in_hunk, line, styles, before.config)
    &&& emitted == emitted_by(before.hunk@, before.in_hunk, line, styles, before.config)
}

/// No line is lost and none is written twice: what is written on a line
/// and what waits after it are, together, what waited before and the
/// line itself.
pub proof fn lemma_no_line_lost(
    waiting: Seq<Arrival>,
    in_hunk: bool,
    line: Seq<u8>,
    styles: Seq<StyleSpan>,
    config: Config,
)
    ensures
        emitted_by(waiting, in_hunk, line, styles, config).len() + waiting_after(
            waiting,
            in_hunk,
            line,
            styles,
            config,
        ).len() == waiting.len() + 1,
        rendered_hunk(waiting, config).len() == waiting.len(),
{
}

/// A context line of a hunk is written in its highlight and nothing else,
/// whatever waits before it: each of its spans is a span of its highlight
/// with nothing behind it, and the line is the last to be written.
pub proof fn lemma_context_line_alone(
    waiting: Seq<Arrival>,
    other: Seq<Arrival>,
    line: Seq<u8>,
    styles: Seq<StyleSpan>,
    config: Config,
)
    requires
        kind_of(line) == Kind::Context,
        content_of(line, config.tab_width as nat).len() <= usize::MAX,
    ensures
        emitted_by(waiting, true, line, styles, config).last() == rendered_context(
            line,
            styles,
            config,
        ),
        emitted_by(waiting, true, line, styles, config).last() == emitted_by(
            other,
            true,
            line,
            styles,
            config,
        ).last(),
        ({
            let text = content_of(line, config.tab_width as nat);
            let highlight = normalized(styles, text.len() as int);
            rendered_context(line, styles, config) == rendered_line(
                text,
                Seq::new(highlight.len(), |k: int| painted(highlight[k], Side::Context)),
                config.true_color_enabled,
            )
        }),
{
    let text = content_of(line, config.tab_width as nat);
    let highlight = normalized(styles, text.len() as int);
    lemma_merged_whole_line(highlight, Side::Context, text.len() as int);
}

impl Annotator {
    /// What the engine keeps is in order.
    pub open spec fn well_formed(self) -> bool {
        self.hunk.well_formed()
    }

    /// An engine that has read nothing yet.
    pub fn new(config: Config) -> (annotator: Annotator)
        ensures
            annotator.well_formed(),
            annotator.config == config,
            !annotator.in_hunk,
            annotator.language@ == Seq::<u8>::empty(),
            annotator.hunk@ == Seq::<Arrival>::empty(),
    {
        Annotator { config, in_hunk: false, language: Vec::new(), hunk: Hunk::new() }
    }

    /// The text that a highlighter is to colour for `line`: the text of
    /// the line where it is a line of a hunk, and none for any other line.
    pub fn wanted_text(&self, line: &[u8]) -> (text: Option<Vec<u8>>)
        ensures
            text is Some <==> side_taken(self.in_hunk, kind_of(line@)) is Some,
            text matches Some(t) ==> t@ == content_of(line@, self.config.tab_width as nat),
    {
        if !self.in_hunk {
            return None;
        }
        match classify(line) {
            Kind::Removed => Some(content(line, self.config.tab_width)),
            Kind::Added => Some(content(line, self.config.tab_width)),
            Kind::Context => Some(content(line, self.config.tab_width)),
            _ => None,
        }
    }

    /// Writes the lines that wait, and lets them go.
    pub fn flush(&mut self) -> (emitted: Vec<Vec<u8>>)
        requires
            old(self).well_formed(),
        ensures
            final(self).well_formed(),
            final(self).config == old(self).config,
            final(self).in_hunk == old(self).in_hunk,
            final(self).language == old(self).language,
            final(self).hunk@ == Seq::<Arrival>::empty(),
            line_texts(emitted@) == rendered_hunk(old(self).hunk@, old(self).config),
    {
        let emitted = self.hunk.render(&self.config);
        self.hunk.reset();
        emitted
    }

    /// Takes the next line, with `styles` as the highlight of its text.
    /// A removed or an added line of a hunk waits for the lines it may be
    /// paired with. Any other line ends the wait: the lines that waited
    /// are written, and then the line itself.
    pub fn accept(&mut self, line: &[u8], styles: Vec<StyleSpan>) -> (emitted: Vec<Vec<u8>>)
        requires
            old(self).well_formed(),
        ensures
            final(self).well_formed(),
            steps(*old(self), *final(self), line@, styles@, line_texts(emitted@)),
    {
        let kind = classify(line);
        let ghost waiting = self.hunk@;
        let ghost want = emitted_by(waiting, self.in_hunk, line@, styles@, self.config);
        let taken: Option<Side> = if !self.in_hunk {
            None
        } else {
            match kind {
                Kind::Removed => Some(Side::Removed),
                Kind::Added => Some(Side::Added),
                Kind::Context => Some(Side::Context),
                _ => None,
            }
        };
        match taken {
            Some(side) => {
                let text = content(line, self.config.tab_width);
                let highlight = normalize(styles, text.len());
                match side {
                    Side::Context => {
                        let mut emitted = self.flush();
                        let merged = merge_whole(&highlight, text.len(), Side::Context);
                        proof {
                            lemma_partition_within(merged@, text.len() as int);
                        }
                        let written = render_line(
                            text.as_slice(),
                            &merged,
                            self.config.true_color_enabled,
                        );
                        emitted.push(written);
                        assert(line_texts(emitted@) =~= want);
                        emitted
                    },
                    _ => {
                        self.hunk.push(side, text, highlight);
                        let emitted: Vec<Vec<u8>> = Vec::new();
                        assert(line_texts(emitted@) =~= want);
                        emitted
                    },
                }
            },
            None => {
                let mut emitted = self.flush();
                emitted.push(pass_line(line));
                assert(line_texts(emitted@) =~= want);
                match kind {
                    Kind::HunkHeader => {
                        self.in_hunk = true;
                    },
                    Kind::Header => {
                        self.in_hunk = false;
                        match header_language(line) {
                            Some(language) => {
                                self.language = language;
                            },
                            None => {},
                        }
                        assert(self.language@ == language_after(old(self).language@, line@));
                    },
                    _ => {},
                }
                emitted
            },
        }
    }

    /// Takes the next line, and asks `highlighter` for the highlight of
    /// its text where it is a line of a hunk. Whatever the highlighter
    /// answers, the engine goes on as `accept` does with that answer.
    pub fn feed<H: Highlighter>(&mut self, line: &[u8], highlighter: &H) -> (emitted: Vec<Vec<u8>>)
        requires
            old(self).well_formed(),
        ensures
            final(self).well_formed(),
            exists|styles: Seq<StyleSpan>| #[trigger]
                steps(*old(self), *final(self), line@, styles, line_texts(emitted@)),
            side_taken(old(self).in_hunk, kind_of(line@)) is None ==> steps(
                *old(self),
                *final(self),
                line@,
                Seq::empty(),
                line_texts(emitted@),
            ),
    {
        let styles = match self.wanted_text(line) {
            Some(text) => highlighter.highlight(text.as_slice(), self.language.as_slice()),
            None => Vec::new(),
        };
        let ghost given = styles@;
        let emitted = self.accept(line, styles);
        assert(steps(*old(self), *self, line@, given, line_texts(emitted@)));
        emitted
    }

    /// Ends the input: the lines that still wait are written, and the
    /// engine is as it was before the first line, but for the language.
    pub fn finish(&mut self) -> (emitted: Vec<Vec<u8>>)
        requires
            old(self).well_formed(),
        ensures
            final(self).well_formed(),
            final(self).config == old(self).config,
            !final(self).in_hunk,
            final(self).language == old(self).language,
            final(self).hunk@ == Seq::<Arrival>::empty(),
            line_texts(emitted@) == rendered_hunk(old(self).hunk@, old(self).config),
    {
        let emitted = self.flush();
        self.in_hunk = false;
        emitted
    }
}

} // verus!
