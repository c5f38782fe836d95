//! A whole diff at once, and what holds of everything that is written for
//! it.

use vstd::prelude::*;
use crate::config::Config;
use crate::line::{kind_of, Kind};
use crate::span::partitions;
use crate::style::{
    lemma_merged_partitions, merged_of, normalized, whole_line, MergedSpan, Side, StyleSpan,
};
use crate::score::line_texts;
use crate::pair::pairs_of_lines;
use crate::emit::{passed_line, rendered_line};
use crate::prepare::content_of;
use crate::hunk::{
    edits_of_line, lemma_hunk_line_partitioned, rendered_hunk, rendered_hunk_line,
    texts_of_side, Arrival,
};
use crate::annotate::{
    emitted_by, in_hunk_after, rendered_context, side_taken, steps, waiting_after, Annotator,
    Highlighter,
};

verus! {

/// Whether the engine is in a hunk, and the lines that wait in it, after
/// `lines`, where `styles[k]` is the highlight that was given for the text
/// of `lines[k]`.
pub open spec fn state_after(config: Config, lines: Seq<Seq<u8>>, styles: Seq<Seq<StyleSpan>>) -> (
    bool,
    Seq<Arrival>,
)
    decreases lines.len(),
{
    if lines.len() == 0 {
        (false, Seq::empty())
    } else {
        let (in_hunk, waiting) = state_after(config, lines.drop_last(), styles.drop_last());
        (
            in_hunk_after(in_hunk, kind_of(lines.last())),
            waiting_after(waiting, in_hunk, lines.last(), styles.last(), config),
        )
    }
}

/// What the engine has written by the time it has taken `lines`.
pub open spec fn written_during(
    config: Config,
    lines: Seq<Seq<u8>>,
    styles: Seq<Seq<StyleSpan>>,
) -> Seq<Seq<u8>>
    decreases lines.len(),
{
    if lines.len() == 0 {
        Seq::empty()
    } else {
        let (in_hunk, waiting) = state_after(config, lines.drop_last(), styles.drop_last());
        written_during(config, lines.drop_last(), styles.drop_last()) + emitted_by(
            waiting,
            in_hunk,
            lines.last(),
            styles.last(),
            config,
        )
    }
}

/// Everything that is written for `lines`: what is written while they are
/// taken, and then the lines that still wait when the input ends.
pub open spec fn annotated(config: Config, lines: Seq<Seq<u8>>, styles: Seq<Seq<StyleSpan>>) -> Seq<
    Seq<u8>,
> {
    written_during(config, lines, styles) + rendered_hunk(
        state_after(config, lines, styles).1,
        config,
    )
}

/// `written` is the text of `line` in spans that partition it.
pub open spec fn is_styled(written: Seq<u8>, line: Seq<u8>, config: Config) -> bool {
    exists|spans: Seq<MergedSpan>|
        partitions(spans, content_of(line, config.tab_width as nat).len() as int) && written
            == #[trigger] rendered_line(
            content_of(line, config.tab_width as nat),
            spans,
            config.true_color_enabled,
        )
}

/// `written` shows `line`: it is the line as it came, or its text in
/// spans that partition it.
pub open spec fn shows(written: Seq<u8>, line: Seq<u8>, config: Config) -> bool {
    written == passed_line(line) || is_styled(written, line, config)
}

/// The text of every line fits in memory.
pub open spec fn texts_fit(config: Config, lines: Seq<Seq<u8>>) -> bool {
    forall|k: int|
        0 <= k < lines.len() ==> (#[trigger] content_of(lines[k], config.tab_width as nat)).len()
            <= usize::MAX
}

/// The lines of `waiting`, written as a hunk, show the lines `from` on.
proof fn lemma_hunk_shows(config: Config, lines: Seq<Seq<u8>>, waiting: Seq<Arrival>, from: int)
    requires
        0 <= from,
        from + waiting.len() <= lines.len(),
        texts_fit(config, lines),
        forall|t: int|
            0 <= t < waiting.len() ==> (#[trigger] waiting[t]).1 == content_of(
                lines[from + t],
                config.tab_width as nat,
            ) && partitions(waiting[t].2, waiting[t].1.len() as int),
    ensures
        rendered_hunk(waiting, config).len() == waiting.len(),
        forall|t: int|
            0 <= t < waiting.len() ==> shows(
                #[trigger] rendered_hunk(waiting, config)[t],
                lines[from + t],
                config,
            ),
{
    let pairs = pairs_of_lines(
        texts_of_side(waiting, Side::Removed),
        texts_of_side(waiting, Side::Added),
        config,
    );
    assert forall|t: int| 0 <= t < waiting.len() implies shows(
        #[trigger] rendered_hunk(waiting, config)[t],
        lines[from + t],
        config,
    ) by {
        let text = content_of(lines[from + t], config.tab_width as nat);
        assert(waiting[t].1 == text);
        lemma_hunk_line_partitioned(waiting, pairs, t);
        let spans = merged_of(edits_of_line(waiting, pairs, t), waiting[t].2, waiting[t].0);
        assert(rendered_hunk(waiting, config)[t] == rendered_hunk_line(
            waiting,
            pairs,
            t,
            config.true_color_enabled,
        ));
        assert(rendered_hunk(waiting, config)[t] == rendered_line(
            text,
            spans,
            config.true_color_enabled,
        ));
        assert(is_styled(rendered_hunk(waiting, config)[t], lines[from + t], config));
    }
}

/// What has been written and what waits are, in this order, the lines
/// that have been taken: each written line shows the line at its place,
/// and each waiting line holds the text of the line at its place, with a
/// highlight that partitions it.
#[verifier::opaque]
spec fn accounts_for(
    config: Config,
    lines: Seq<Seq<u8>>,
    written: Seq<Seq<u8>>,
    waiting: Seq<Arrival>,
) -> bool {
    &&& written.len() + waiting.len() == lines.len()
    &&& forall|k: int| 0 <= k < written.len() ==> shows(#[trigger] written[k], lines[k], config)
    &&& forall|t: int|
        0 <= t < waiting.len() ==> (#[trigger] waiting[t]).1 == content_of(
            lines[written.len() + t],
            config.tab_width as nat,
        ) && partitions(waiting[t].2, waiting[t].1.len() as int)
}

/// A line that joins the lines that wait is accounted for.
proof fn lemma_step_waits(
    config: Config,
    lines: Seq<Seq<u8>>,
    written: Seq<Seq<u8>>,
    waiting: Seq<Arrival>,
    line: Seq<u8>,
    side: Side,
    styles: Seq<StyleSpan>,
)
    requires
        accounts_for(config, lines, written, waiting),
        partitions(styles, content_of(line, config.tab_width as nat).len() as int),
    ensures
        accounts_for(
            config,
            lines.push(line),
            written,
            waiting.push((side, content_of(line, config.tab_width as nat), styles)),
        ),
{
    reveal(accounts_for);
    let longer = lines.push(line);
    let more = waiting.push((side, content_of(line, config.tab_width as nat), styles));
    assert forall|k: int| 0 <= k < written.len() implies shows(
        #[trigger] written[k],
        longer[k],
        config,
    ) by {
        assert(longer[k] == lines[k]);
    }
    assert forall|t: int| 0 <= t < more.len() implies (#[trigger] more[t]).1 == content_of(
        longer[written.len() + t],
        config.tab_width as nat,
    ) && partitions(more[t].2, more[t].1.len() as int) by {
        if t < waiting.len() {
            assert(more[t] == waiting[t]);
            assert(longer[written.len() + t] == lines[written.len() + t]);
        }
    }
}

/// A line that ends the wait is accounted for, and so are the lines that
/// waited: they are written before it, in their order.
proof fn lemma_step_writes(
    config: Config,
    lines: Seq<Seq<u8>>,
    written: Seq<Seq<u8>>,
    waiting: Seq<Arrival>,
    line: Seq<u8>,
    last: Seq<u8>,
)
    requires
        accounts_for(config, lines, written, waiting),
        texts_fit(config, lines),
        shows(last, line, config),
    ensures
        accounts_for(
            config,
            lines.push(line),
            written + rendered_hunk(waiting, config).push(last),
            Seq::empty(),
        ),
{
    reveal(accounts_for);
    let longer = lines.push(line);
    let hunk = rendered_hunk(waiting, config);
    let all = written + hunk.push(last);
    lemma_hunk_shows(config, lines, waiting, written.len() as int);
    assert forall|k: int| 0 <= k < all.len() implies shows(
        #[trigger] all[k],
        longer[k],
        config,
    ) by {
        if k < written.len() {
            assert(all[k] == written[k]);
            assert(longer[k] == lines[k]);
        } else if k < written.len() + waiting.len() {
            assert(all[k] == hunk[k - written.len()]);
            assert(longer[k] == lines[written.len() + (k - written.len())]);
        } else {
            assert(all[k] == last);
            assert(longer[k] == line);
        }
    }
}

/// A context line as it is written shows the line.
proof fn lemma_context_shows(config: Config, line: Seq<u8>, styles: Seq<StyleSpan>)
    requires
        content_of(line, config.tab_width as nat).len() <= usize::MAX,
    ensures
        partitions(
            normalized(styles, content_of(line, config.tab_width as nat).len() as int),
            content_of(line, config.tab_width as nat).len() as int,
        ),
        shows(rendered_context(line, styles, config), line, config),
{
    let text = content_of(line, config.tab_width as nat);
    let highlight = normalized(styles, text.len() as int);
    assert(partitions(highlight, text.len() as int)) by {
        if !partitions(styles, text.len() as int) {
            assert(highlight[0].start == 0 && highlight[0].end == text.len());
        }
    }
    lemma_merged_partitions(
        whole_line(text.len() as int, Side::Context),
        highlight,
        Side::Context,
        text.len() as int,
    );
    assert(is_styled(rendered_context(line, styles, config), line, config));
}

/// What the engine has written and what waits in it account for the lines
/// that it has taken.
proof fn lemma_run(config: Config, lines: Seq<Seq<u8>>, styles: Seq<Seq<StyleSpan>>)
    requires
        lines.len() == styles.len(),
        texts_fit(config, lines),
    ensures
        accounts_for(
            config,
            lines,
            written_during(config, lines, styles),
            state_after(config, lines, styles).1,
        ),
    decreases lines.len(),
{
    if lines.len() == 0 {
        reveal(accounts_for);
    } else {
        let before = lines.drop_last();
        let line = lines.last();
        let given = styles.last();
        assert(lines =~= before.push(line));
        assert(texts_fit(config, before)) by {
            assert forall|k: int| 0 <= k < before.len() implies (#[trigger] content_of(
                before[k],
                config.tab_width as nat,
            )).len() <= usize::MAX by {
                assert(before[k] == lines[k]);
            }
        }
        assert(content_of(line, config.tab_width as nat).len() <= usize::MAX) by {
            assert(line == lines[lines.len() - 1]);
        }
        lemma_run(config, before, styles.drop_last());
        let (in_hunk, waiting) = state_after(config, before, styles.drop_last());
        let done = written_during(config, before, styles.drop_last());
        let text = content_of(line, config.tab_width as nat);
        lemma_context_shows(config, line, given);
        match side_taken(in_hunk, kind_of(line)) {
            Some(Side::Removed) => {
                lemma_step_waits(
                    config,
                    before,
                    done,
                    waiting,
                    line,
                    Side::Removed,
                    normalized(given, text.len() as int),
                );
                assert(written_during(config, lines, styles) =~= done);
            },
            Some(Side::Added) => {
                lemma_step_waits(
                    config,
                    before,
                    done,
                    waiting,
                    line,
                    Side::Added,
                    normalized(given, text.len() as int),
                );
                assert(written_during(config, lines, styles) =~= done);
            },
            Some(Side::Context) => {
                lemma_step_writes(
                    config,
                    before,
                    done,
                    waiting,
                    line,
                    rendered_context(line, given, config),
                );
            },
            None => {
                lemma_step_writes(config, before, done, waiting, line, passed_line(line));
            },
        }
    }
}

/// The order of the lines is kept, and no line is lost or written twice:
/// as many lines are written as were read, and the line written in place
/// `k` shows the line read in place `k`, as it came or as its text in
/// spans that partition it.
pub proof fn lemma_document_order(config: Config, lines: Seq<Seq<u8>>, styles: Seq<Seq<StyleSpan>>)
    requires
        lines.len() == styles.len(),
        texts_fit(config, lines),
    ensures
        annotated(config, lines, styles).len() == lines.len(),
        forall|k: int|
            0 <= k < lines.len() ==> shows(
                #[trigger] annotated(config, lines, styles)[k],
                lines[k],
                config,
            ),
{
    lemma_run(config, lines, styles);
    reveal(accounts_for);
    let done = written_during(config, lines, styles);
    let waiting = state_after(config, lines, styles).1;
    let all = annotated(config, lines, styles);
    lemma_hunk_shows(config, lines, waiting, done.len() as int);
    assert forall|k: int| 0 <= k < lines.len() implies shows(
        #[trigger] all[k],
        lines[k],
        config,
    ) by {
        if k < done.len() {
            assert(all[k] == done[k]);
        } else {
            assert(all[k] == rendered_hunk(waiting, config)[k - done.len()]);
        }
    }
}

/// Annotates a whole diff: takes its lines one after the other, asks
/// `highlighter` for the highlight of the text of each line of a hunk,
/// and gives everything that is written, in order. Whatever the
/// highlighter answers, the result is what the engine writes for these
/// lines with those answers.
pub fn annotate_lines<H: Highlighter>(
    lines: &Vec<Vec<u8>>,
    highlighter: &H,
    config: Config,
) -> (out: Vec<Vec<u8>>)
    ensures
        exists|styles: Seq<Seq<StyleSpan>>|
            styles.len() == lines.len() && line_texts(out@) == #[trigger] annotated(
                config,
                line_texts(lines@),
                styles,
            ),
{
    let ghost texts = line_texts(lines@);
    let ghost mut given: Seq<Seq<StyleSpan>> = Seq::empty();
    let mut annotator = Annotator::new(config);
    let mut out: Vec<Vec<u8>> = Vec::new();
    let mut i: usize = 0;
    assert(texts.take(0) =~= Seq::<Seq<u8>>::empty());
    assert(line_texts(out@) =~= Seq::<Seq<u8>>::empty());
    while i < lines.len()
        invariant
            i <= lines.len(),
            texts == line_texts(lines@),
            given.len() == i,
            annotator.well_formed(),
            annotator.config == config,
            (annotator.in_hunk, annotator.hunk@) == state_after(
                config,
                texts.take(i as int),
                given,
            ),
            line_texts(out@) == written_during(config, texts.take(i as int), given),
        decreases lines.len() - i,
    {
        let ghost before = annotator;
        let ghost written = line_texts(out@);
        let mut emitted = annotator.feed(lines[i].as_slice(), highlighter);
        proof {
            let line = texts[i as int];
            let styles = choose|styles: Seq<StyleSpan>| #[trigger]
                steps(before, annotator, line, styles, line_texts(emitted@));
            let earlier = given;
            given = given.push(styles);
            assert(texts.take(i + 1).drop_last() =~= texts.take(i as int));
            assert(texts.take(i + 1).last() == line);
            assert(given.drop_last() =~= earlier);
        }
        let ghost now = line_texts(emitted@);
        out.append(&mut emitted);
        assert(line_texts(out@) =~= written + now);
        i += 1;
    }
    let ghost written = line_texts(out@);
    let mut emitted = annotator.finish();
    let ghost last = line_texts(emitted@);
    out.append(&mut emitted);
    proof {
        assert(texts.take(i as int) =~= texts);
        assert(line_texts(out@) =~= written + last);
        assert(line_texts(out@) == annotated(config, texts, given));
    }
    out
}

} // verus!
