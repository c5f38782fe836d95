//! Syntax highlight, change emphasis, and the sweep that lays the one over
//! the other.

use vstd::prelude::*;
use crate::span::{Span, chains, partitions, tiles, lemma_chains_join, lemma_tiles_bounded};
use crate::edit::{EditSpan, EditTag};

verus! {

/// A colour by its red, green and blue parts.
#[derive(Clone, Copy, Debug, PartialEq, Eq)]
pub struct Rgb {
    pub red: u8,
    pub green: u8,
    pub blue: u8,
}

/// The colour of the text itself.
#[derive(Clone, Copy, Debug, PartialEq, Eq)]
pub enum Foreground {
    /// The colour that the display uses when none is asked for.
    Default,
    Color(Rgb),
}

/// What the syntax of a stretch of text asks for: a foreground colour and
/// a weight.
#[derive(Clone, Copy, Debug, PartialEq, Eq)]
pub struct Highlight {
    pub foreground: Foreground,
    pub bold: bool,
}

/// The emphasis that a change puts behind the text.
#[derive(Clone, Copy, Debug, PartialEq, Eq)]
pub enum Background {
    Unmarked,
    Removed,
    Added,
}

/// The side of the change that a line of a hunk stands on.
#[derive(Clone, Copy, Debug, PartialEq, Eq)]
pub enum Side {
    Removed,
    Added,
    Context,
}

/// A highlight in front and an emphasis behind. Neither touches the other.
#[derive(Clone, Copy, Debug, PartialEq, Eq)]
pub struct Style {
    pub highlight: Highlight,
    pub background: Background,
}

/// A stretch of a line with the highlight that its syntax asks for.
pub type StyleSpan = Span<Highlight>;

/// A stretch of a line with its final style.
pub type MergedSpan = Span<Style>;

/// The highlight of text that the syntax says nothing about.
pub open spec fn plain() -> Highlight {
    Highlight { foreground: Foreground::Default, bold: false }
}

impl Highlight {
    /// The highlight of text that the syntax says nothing about.
    pub fn plain() -> (highlight: Highlight)
        ensures
            highlight == plain(),
    {
        Highlight { foreground: Foreground::Default, bold: false }
    }
}

/// The style of a stretch of text: the highlight is kept as it is, and a
/// changed stretch of a removed or an added line gets that side's
/// emphasis behind it. Unchanged text and context get none.
pub open spec fn combined(highlight: Highlight, tag: EditTag, side: Side) -> Style {
    Style {
        highlight,
        background: match (tag, side) {
            (EditTag::Changed, Side::Removed) => Background::Removed,
            (EditTag::Changed, Side::Added) => Background::Added,
            _ => Background::Unmarked,
        },
    }
}

/// Lays the change emphasis behind a highlight.
pub fn combine(highlight: Highlight, tag: EditTag, side: Side) -> (style: Style)
    ensures
        style == combined(highlight, tag, side),
{
    let background = match tag {
        EditTag::Unchanged => Background::Unmarked,
        EditTag::Changed => match side {
            Side::Removed => Background::Removed,
            Side::Added => Background::Added,
            Side::Context => Background::Unmarked,
        },
    };
    Style { highlight, background }
}

/// Whether the spans partition a line of `len` bytes.
pub fn check_partition<T>(spans: &Vec<Span<T>>, len: usize) -> (ok: bool)
    ensures
        ok == partitions(spans@, len as int),
{
    let n = spans.len();
    if len == 0 {
        return n == 1 && spans[0].start == 0 && spans[0].end == 0;
    }
    if n == 0 || spans[0].start != 0 || spans[n - 1].end != len {
        return false;
    }
    let mut i: usize = 0;
    while i < n
        invariant
            i <= n,
            n == spans.len(),
            n > 0,
            len != 0,
            spans@[0].start == 0,
            spans@[n - 1].end == len,
            forall|k: int| 0 <= k < i ==> (#[trigger] spans@[k]).start < spans@[k].end,
            forall|k: int, l: int|
                0 <= k && l == k + 1 && l < n && k < i ==> (#[trigger] spans@[k]).end
                    == (#[trigger] spans@[l]).start,
        decreases n - i,
    {
        if spans[i].start >= spans[i].end {
            assert(spans@[i as int].start >= spans@[i as int].end);
            return false;
        }
        if i + 1 < n && spans[i].end != spans[i + 1].start {
            assert(spans@[i as int].end != spans@[i + 1].start);
            return false;
        }
        i += 1;
    }
    true
}

/// The spans themselves where they partition a line of `len` bytes, and
/// else one plain span over the whole line.
pub open spec fn normalized(spans: Seq<StyleSpan>, len: int) -> Seq<StyleSpan> {
    if partitions(spans, len) {
        spans
    } else {
        seq![Span { start: 0usize, end: len as usize, tag: plain() }]
    }
}

/// Makes sure that what a highlighter gave for a line of `len` bytes
/// partitions that line: spans that do are kept as they are, and anything
/// else gives way to one plain span over the whole line.
pub fn normalize(spans: Vec<StyleSpan>, len: usize) -> (styles: Vec<StyleSpan>)
    ensures
        styles@ == normalized(spans@, len as int),
        partitions(styles@, len as int),
{
    if check_partition(&spans, len) {
        spans
    } else {
        let mut styles: Vec<StyleSpan> = Vec::new();
        styles.push(Span { start: 0, end: len, tag: Highlight::plain() });
        assert(styles@ =~= normalized(spans@, len as int));
        styles
    }
}

/// The later of two starts.
pub open spec fn later(a: usize, b: usize) -> usize {
    if a >= b {
        a
    } else {
        b
    }
}

/// The earlier of two ends.
pub open spec fn earlier(a: usize, b: usize) -> usize {
    if a <= b {
        a
    } else {
        b
    }
}

/// What edit span `edit` and style span `style` have in common, in its
/// combined style.
pub open spec fn overlap(edit: EditSpan, style: StyleSpan, side: Side) -> MergedSpan {
    Span {
        start: later(edit.start, style.start),
        end: earlier(edit.end, style.end),
        tag: combined(style.tag, edit.tag, side),
    }
}

/// The sweep over both sequences from edit span `i` and style span `j`
/// on: what the two current spans have in common, and then the sweep from
/// where the span that ends first has been left behind (both, where they
/// end together).
pub open spec fn sweep(
    edits: Seq<EditSpan>,
    styles: Seq<StyleSpan>,
    side: Side,
    i: int,
    j: int,
) -> Seq<MergedSpan>
    decreases edits.len() - i + styles.len() - j,
{
    if i < 0 || j < 0 || i >= edits.len() || j >= styles.len() {
        Seq::empty()
    } else {
        let rest = if edits[i].end < styles[j].end {
            sweep(edits, styles, side, i + 1, j)
        } else if styles[j].end < edits[i].end {
            sweep(edits, styles, side, i, j + 1)
        } else {
            sweep(edits, styles, side, i + 1, j + 1)
        };
        seq![overlap(edits[i], styles[j], side)] + rest
    }
}

/// The merged spans of a line: the sweep from the start of both.
pub open spec fn merged_of(edits: Seq<EditSpan>, styles: Seq<StyleSpan>, side: Side) -> Seq<
    MergedSpan,
> {
    sweep(edits, styles, side, 0, 0)
}

/// The one edit span of a line that is not held against another: all of a
/// removed or an added line counts as changed, and context as unchanged.
pub open spec fn whole_line(len: int, side: Side) -> Seq<EditSpan> {
    seq![
        Span {
            start: 0usize,
            end: len as usize,
            tag: if side == Side::Context {
                EditTag::Unchanged
            } else {
                EditTag::Changed
            },
        },
    ]
}

/// A style span with the emphasis of a whole line of its side behind it.
pub open spec fn painted(style: StyleSpan, side: Side) -> MergedSpan {
    Span {
        start: style.start,
        end: style.end,
        tag: combined(
            style.tag,
            if side == Side::Context {
                EditTag::Unchanged
            } else {
                EditTag::Changed
            },
            side,
        ),
    }
}

proof fn lemma_sweep_chains(
    edits: Seq<EditSpan>,
    styles: Seq<StyleSpan>,
    side: Side,
    len: int,
    i: int,
    j: int,
)
    requires
        tiles(edits, len),
        tiles(styles, len),
        0 <= i < edits.len(),
        0 <= j < styles.len(),
        later(edits[i].start, styles[j].start) < earlier(edits[i].end, styles[j].end),
    ensures
        chains(
            sweep(edits, styles, side, i, j),
            later(edits[i].start, styles[j].start) as int,
            len,
        ),
    decreases edits.len() - i + styles.len() - j,
{
    let e = edits[i];
    let s = styles[j];
    let piece = overlap(e, s, side);
    let first = seq![piece];
    lemma_tiles_bounded(edits, len, i);
    lemma_tiles_bounded(styles, len, j);
    assert(chains(first, piece.start as int, piece.end as int));
    if e.end < s.end {
        if i + 1 < edits.len() {
            assert(edits[i].end == edits[i + 1].start);
            assert(edits[i + 1].start < edits[i + 1].end);
            lemma_sweep_chains(edits, styles, side, len, i + 1, j);
            lemma_chains_join(
                first,
                sweep(edits, styles, side, i + 1, j),
                piece.start as int,
                piece.end as int,
                len,
            );
        }
    } else if s.end < e.end {
        if j + 1 < styles.len() {
            assert(styles[j].end == styles[j + 1].start);
            assert(styles[j + 1].start < styles[j + 1].end);
            lemma_sweep_chains(edits, styles, side, len, i, j + 1);
            lemma_chains_join(
                first,
                sweep(edits, styles, side, i, j + 1),
                piece.start as int,
                piece.end as int,
                len,
            );
        }
    } else {
        if i + 1 < edits.len() {
            assert(edits[i].end == edits[i + 1].start);
            assert(edits[i + 1].start < edits[i + 1].end);
            lemma_tiles_bounded(edits, len, i + 1);
        }
        if j + 1 < styles.len() {
            assert(styles[j].end == styles[j + 1].start);
            assert(styles[j + 1].start < styles[j + 1].end);
            lemma_tiles_bounded(styles, len, j + 1);
        }
        if i + 1 < edits.len() && j + 1 < styles.len() {
            lemma_sweep_chains(edits, styles, side, len, i + 1, j + 1);
            lemma_chains_join(
                first,
                sweep(edits, styles, side, i + 1, j + 1),
                piece.start as int,
                piece.end as int,
                len,
            );
        } else {
            assert(sweep(edits, styles, side, i + 1, j + 1) =~= Seq::empty());
            assert(sweep(edits, styles, side, i, j) =~= first);
        }
    }
}

/// Where the edit spans and the style spans each partition a line, the
/// merged spans partition it too.
pub proof fn lemma_merged_partitions(
    edits: Seq<EditSpan>,
    styles: Seq<StyleSpan>,
    side: Side,
    len: int,
)
    requires
        partitions(edits, len),
        partitions(styles, len),
    ensures
        partitions(merged_of(edits, styles, side), len),
{
    if len == 0 {
        assert(sweep(edits, styles, side, 1, 1) =~= Seq::empty());
        assert(merged_of(edits, styles, side) =~= seq![overlap(edits[0], styles[0], side)]);
    } else {
        assert(edits[0].start < edits[0].end);
        assert(styles[0].start < styles[0].end);
        lemma_sweep_chains(edits, styles, side, len, 0, 0);
    }
}

proof fn lemma_sweep_whole(styles: Seq<StyleSpan>, side: Side, len: int, j: int)
    requires
        tiles(styles, len),
        0 <= len <= usize::MAX,
        0 <= j < styles.len(),
    ensures
        sweep(whole_line(len, side), styles, side, 0, j) == Seq::new(
            (styles.len() - j) as nat,
            |k: int| painted(styles[j + k], side),
        ),
    decreases styles.len() - j,
{
    let edits = whole_line(len, side);
    let expected = Seq::new((styles.len() - j) as nat, |k: int| painted(styles[j + k], side));
    lemma_tiles_bounded(styles, len, j);
    assert(overlap(edits[0], styles[j], side) == painted(styles[j], side));
    if j + 1 < styles.len() {
        assert(styles[j].end == styles[j + 1].start);
        lemma_tiles_bounded(styles, len, j + 1);
        lemma_sweep_whole(styles, side, len, j + 1);
        assert(sweep(edits, styles, side, 0, j) =~= expected);
    } else {
        assert(sweep(edits, styles, side, 0, j + 1) =~= Seq::empty());
        assert(sweep(edits, styles, side, 1, j + 1) =~= Seq::empty());
        assert(sweep(edits, styles, side, 0, j) =~= expected);
    }
}

/// A line that is not held against another gets the style spans as they
/// are, each with the emphasis of its side behind it: that of a removed or
/// an added line, and none for context.
pub proof fn lemma_merged_whole_line(styles: Seq<StyleSpan>, side: Side, len: int)
    requires
        partitions(styles, len),
        0 <= len <= usize::MAX,
    ensures
        merged_of(whole_line(len, side), styles, side) == Seq::new(
            styles.len(),
            |k: int| painted(styles[k], side),
        ),
{
    let edits = whole_line(len, side);
    let expected = Seq::new(styles.len(), |k: int| painted(styles[k], side));
    if len == 0 {
        assert(sweep(edits, styles, side, 1, 1) =~= Seq::empty());
        assert(merged_of(edits, styles, side) =~= expected);
    } else {
        lemma_sweep_whole(styles, side, len, 0);
        assert(merged_of(edits, styles, side) =~= expected);
    }
}

/// Lays the edit spans of a line over its style spans: walks both in
/// step, gives out what the two current spans have in common, in its
/// combined style, and leaves behind whichever ends first. Where both
/// partition the same line, so does the result.
pub fn merge(edits: &Vec<EditSpan>, styles: &Vec<StyleSpan>, side: Side) -> (merged: Vec<
    MergedSpan,
>)
    ensures
        merged@ == merged_of(edits@, styles@, side),
        forall|len: int|
            partitions(edits@, len) && partitions(styles@, len) ==> #[trigger] partitions(
                merged@,
                len,
            ),
{
    let mut merged: Vec<MergedSpan> = Vec::new();
    let mut i: usize = 0;
    let mut j: usize = 0;
    while i < edits.len() && j < styles.len()
        invariant
            i <= edits.len(),
            j <= styles.len(),
            merged_of(edits@, styles@, side) == merged@ + sweep(
                edits@,
                styles@,
                side,
                i as int,
                j as int,
            ),
        decreases edits.len() - i + styles.len() - j,
    {
        let edit = edits[i];
        let style = styles[j];
        let start = if edit.start >= style.start {
            edit.start
        } else {
            style.start
        };
        let end = if edit.end <= style.end {
            edit.end
        } else {
            style.end
        };
        let ghost before = merged@;
        let ghost piece = overlap(edit, style, side);
        merged.push(Span { start, end, tag: combine(style.tag, edit.tag, side) });
        let ghost i0 = i as int;
        let ghost j0 = j as int;
        if edit.end < style.end {
            i += 1;
        } else if style.end < edit.end {
            j += 1;
        } else {
            i += 1;
            j += 1;
        }
        proof {
            let rest = sweep(edits@, styles@, side, i as int, j as int);
            assert(sweep(edits@, styles@, side, i0, j0) == seq![piece] + rest);
            assert(before + (seq![piece] + rest) =~= merged@ + rest);
        }
    }
    proof {
        assert(sweep(edits@, styles@, side, i as int, j as int) =~= Seq::empty());
        assert(merged@ + Seq::<MergedSpan>::empty() =~= merged@);
        assert forall|len: int|
            partitions(edits@, len) && partitions(styles@, len) implies #[trigger] partitions(
            merged@,
            len,
        ) by {
            lemma_merged_partitions(edits@, styles@, side, len);
        }
    }
    merged
}

/// The merged spans of a line that is not held against another.
pub fn merge_whole(styles: &Vec<StyleSpan>, len: usize, side: Side) -> (merged: Vec<MergedSpan>)
    ensures
        merged@ == merged_of(whole_line(len as int, side), styles@, side),
        partitions(styles@, len as int) ==> partitions(merged@, len as int),
{
    let tag = match side {
        Side::Context => EditTag::Unchanged,
        _ => EditTag::Changed,
    };
    let mut edits: Vec<EditSpan> = Vec::new();
    edits.push(Span { start: 0, end: len, tag });
    assert(edits@ =~= whole_line(len as int, side));
    let merged = merge(&edits, styles, side);
    proof {
        if partitions(styles@, len as int) {
            assert(partitions(merged@, len as int));
        }
    }
    merged
}

} // verus!
