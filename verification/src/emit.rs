//! Turning styled spans into the bytes that a display understands.

use vstd::prelude::*;
use crate::span::{lemma_tiles_bounded, partitions, Span};
use crate::style::{Background, Foreground, MergedSpan, Rgb, Style};

verus! {

pub const ESCAPE: u8 = 0x1b;

pub const BRACKET: u8 = 0x5b;

pub const SEMICOLON: u8 = 0x3b;

pub const LETTER_M: u8 = 0x6d;

pub const DIGIT_ZERO: u8 = 0x30;

pub const NEWLINE: u8 = 0x0a;

/// The colour that stands behind the changed text of a removed line: a
/// dark red.
pub open spec fn removed_emphasis() -> Rgb {
    Rgb { red: 144, green: 16, blue: 17 }
}

/// The colour that stands behind the changed text of an added line: a
/// dark green.
pub open spec fn added_emphasis() -> Rgb {
    Rgb { red: 0, green: 96, blue: 0 }
}

/// The digits of `n` in base ten, without leading zeros.
pub open spec fn decimal(n: u8) -> Seq<u8> {
    if n >= 100 {
        seq![
            (DIGIT_ZERO + n / 100) as u8,
            (DIGIT_ZERO + (n / 10) % 10) as u8,
            (DIGIT_ZERO + n % 10) as u8,
        ]
    } else if n >= 10 {
        seq![(DIGIT_ZERO + n / 10) as u8, (DIGIT_ZERO + n % 10) as u8]
    } else {
        seq![(DIGIT_ZERO + n) as u8]
    }
}

/// Which of six levels a colour part falls in.
pub open spec fn level(part: u8) -> int {
    part as int / 43
}

/// The colour among the 216 of the 6 x 6 x 6 cube that is nearest below
/// `color`, by its number among the 256 colours.
pub open spec fn cube_index(color: Rgb) -> u8 {
    (16 + 36 * level(color.red) + 6 * level(color.green) + level(color.blue)) as u8
}

/// The parameters that select `color` for the text (`layer` 38) or for what
/// stands behind it (`layer` 48), each with a semicolon before it.
pub open spec fn color_code(color: Rgb, layer: u8, true_color: bool) -> Seq<u8> {
    if true_color {
        seq![SEMICOLON] + decimal(layer) + seq![SEMICOLON, (DIGIT_ZERO + 2) as u8, SEMICOLON]
            + decimal(color.red) + seq![SEMICOLON] + decimal(color.green) + seq![SEMICOLON]
            + decimal(color.blue)
    } else {
        seq![SEMICOLON] + decimal(layer) + seq![SEMICOLON, (DIGIT_ZERO + 5) as u8, SEMICOLON]
            + decimal(cube_index(color))
    }
}

/// The parameter for bold text, if the text is bold.
pub open spec fn weight_code(bold: bool) -> Seq<u8> {
    if bold {
        seq![SEMICOLON, (DIGIT_ZERO + 1) as u8]
    } else {
        Seq::empty()
    }
}

/// The parameters for the colour of the text, if it has one of its own.
pub open spec fn foreground_code(foreground: Foreground, true_color: bool) -> Seq<u8> {
    match foreground {
        Foreground::Default => Seq::empty(),
        Foreground::Color(color) => color_code(color, 38, true_color),
    }
}

/// The parameters for what stands behind the text, if anything does.
pub open spec fn background_code(background: Background, true_color: bool) -> Seq<u8> {
    match background {
        Background::Unmarked => Seq::empty(),
        Background::Removed => color_code(removed_emphasis(), 48, true_color),
        Background::Added => color_code(added_emphasis(), 48, true_color),
    }
}

/// The control sequence that switches a display to `style`: it resets
/// what was set before, then sets the weight, the colour of the text and
/// what stands behind it, each only where the style asks for it.
pub open spec fn control_sequence(style: Style, true_color: bool) -> Seq<u8> {
    seq![ESCAPE, BRACKET, DIGIT_ZERO] + weight_code(style.highlight.bold) + foreground_code(
        style.highlight.foreground,
        true_color,
    ) + background_code(style.background, true_color) + seq![LETTER_M]
}

/// The control sequence that resets a display.
pub open spec fn reset_sequence() -> Seq<u8> {
    seq![ESCAPE, BRACKET, DIGIT_ZERO, LETTER_M]
}

/// The bytes of one span: its control sequence, its text, and a reset.
pub open spec fn rendered_span(line: Seq<u8>, span: MergedSpan, true_color: bool) -> Seq<u8> {
    control_sequence(span.tag, true_color) + line.subrange(span.start as int, span.end as int)
        + reset_sequence()
}

/// The bytes of the spans, one after the other.
pub open spec fn rendered_spans(line: Seq<u8>, spans: Seq<MergedSpan>, true_color: bool) -> Seq<
    u8,
>
    decreases spans.len(),
{
    if spans.len() == 0 {
        Seq::empty()
    } else {
        rendered_spans(line, spans.drop_last(), true_color) + rendered_span(
            line,
            spans.last(),
            true_color,
        )
    }
}

/// A styled line as it is written: its spans, and a line break.
pub open spec fn rendered_line(line: Seq<u8>, spans: Seq<MergedSpan>, true_color: bool) -> Seq<
    u8,
> {
    rendered_spans(line, spans, true_color) + seq![NEWLINE]
}

/// A line that is passed on as it came, as it is written: its bytes, and
/// a line break.
pub open spec fn passed_line(line: Seq<u8>) -> Seq<u8> {
    line + seq![NEWLINE]
}

/// Every span lies inside a line of `len` bytes.
pub open spec fn spans_within<T>(spans: Seq<Span<T>>, len: int) -> bool {
    forall|k: int| 0 <= k < spans.len() ==> (#[trigger] spans[k]).start <= spans[k].end <= len
}

/// Spans that partition a line lie inside it.
pub proof fn lemma_partition_within<T>(spans: Seq<Span<T>>, len: int)
    requires
        partitions(spans, len),
    ensures
        spans_within(spans, len),
{
    if len != 0 {
        assert forall|k: int| 0 <= k < spans.len() implies (#[trigger] spans[k]).start
            <= spans[k].end <= len by {
            lemma_tiles_bounded(spans, len, k);
        }
    }
}

/// Appends the digits of `n`.
pub fn push_decimal(out: &mut Vec<u8>, n: u8)
    ensures
        final(out)@ == old(out)@ + decimal(n),
{
    if n >= 100 {
        out.push(DIGIT_ZERO + n / 100);
        out.push(DIGIT_ZERO + (n / 10) % 10);
        out.push(DIGIT_ZERO + n % 10);
    } else if n >= 10 {
        out.push(DIGIT_ZERO + n / 10);
        out.push(DIGIT_ZERO + n % 10);
    } else {
        out.push(DIGIT_ZERO + n);
    }
    assert(out@ =~= old(out)@ + decimal(n));
}

/// The number of `color` among the 256 colours.
pub fn nearest_cube_color(color: Rgb) -> (index: u8)
    ensures
        index == cube_index(color),
        16 <= index <= 231,
{
    16 + 36 * (color.red / 43) + 6 * (color.green / 43) + color.blue / 43
}

/// Appends the parameters that select `color` on `layer`.
pub fn push_color(out: &mut Vec<u8>, color: Rgb, layer: u8, true_color: bool)
    ensures
        final(out)@ == old(out)@ + color_code(color, layer, true_color),
{
    let ghost before = out@;
    out.push(SEMICOLON);
    push_decimal(out, layer);
    out.push(SEMICOLON);
    if true_color {
        out.push(DIGIT_ZERO + 2);
        out.push(SEMICOLON);
        push_decimal(out, color.red);
        out.push(SEMICOLON);
        push_decimal(out, color.green);
        out.push(SEMICOLON);
        push_decimal(out, color.blue);
    } else {
        out.push(DIGIT_ZERO + 5);
        out.push(SEMICOLON);
        push_decimal(out, nearest_cube_color(color));
    }
    assert(out@ =~= before + color_code(color, layer, true_color));
}

/// Appends the control sequence that switches a display to `style`.
pub fn push_control_sequence(out: &mut Vec<u8>, style: Style, true_color: bool)
    ensures
        final(out)@ == old(out)@ + control_sequence(style, true_color),
{
    let ghost before = out@;
    out.push(ESCAPE);
    out.push(BRACKET);
    out.push(DIGIT_ZERO);
    if style.highlight.bold {
        out.push(SEMICOLON);
        out.push(DIGIT_ZERO + 1);
    }
    assert(out@ =~= before + seq![ESCAPE, BRACKET, DIGIT_ZERO] + weight_code(
        style.highlight.bold,
    ));
    match style.highlight.foreground {
        Foreground::Default => {},
        Foreground::Color(color) => {
            push_color(out, color, 38, true_color);
        },
    }
    assert(out@ =~= before + seq![ESCAPE, BRACKET, DIGIT_ZERO] + weight_code(
        style.highlight.bold,
    ) + foreground_code(style.highlight.foreground, true_color));
    match style.background {
        Background::Unmarked => {},
        Background::Removed => {
            push_color(out, Rgb { red: 144, green: 16, blue: 17 }, 48, true_color);
        },
        Background::Added => {
            push_color(out, Rgb { red: 0, green: 96, blue: 0 }, 48, true_color);
        },
    }
    out.push(LETTER_M);
    assert(out@ =~= before + control_sequence(style, true_color));
}

/// Appends bytes `start..end` of `line`.
pub fn push_bytes(out: &mut Vec<u8>, line: &[u8], start: usize, end: usize)
    requires
        start <= end <= line.len(),
    ensures
        final(out)@ == old(out)@ + line@.subrange(start as int, end as int),
{
    let ghost before = out@;
    let mut at: usize = start;
    while at < end
        invariant
            start <= at <= end,
            end <= line.len(),
            out@ == before + line@.subrange(start as int, at as int),
        decreases end - at,
    {
        out.push(line[at]);
        at += 1;
        assert(out@ =~= before + line@.subrange(start as int, at as int));
    }
}

/// Writes a styled line: each span's control sequence, its text and a
/// reset, in order, and a line break at the end.
pub fn render_line(line: &[u8], spans: &Vec<MergedSpan>, true_color: bool) -> (out: Vec<u8>)
    requires
        spans_within(spans@, line.len() as int),
    ensures
        out@ == rendered_line(line@, spans@, true_color),
{
    let mut out: Vec<u8> = Vec::new();
    let mut k: usize = 0;
    assert(spans@.take(0) =~= Seq::empty());
    while k < spans.len()
        invariant
            k <= spans.len(),
            spans_within(spans@, line.len() as int),
            out@ == rendered_spans(line@, spans@.take(k as int), true_color),
        decreases spans.len() - k,
    {
        let span = spans[k];
        let ghost before = out@;
        push_control_sequence(&mut out, span.tag, true_color);
        push_bytes(&mut out, line, span.start, span.end);
        out.push(ESCAPE);
        out.push(BRACKET);
        out.push(DIGIT_ZERO);
        out.push(LETTER_M);
        proof {
            assert(spans@.take(k + 1).drop_last() =~= spans@.take(k as int));
            assert(spans@.take(k + 1).last() == span);
            assert(out@ =~= before + rendered_span(line@, span, true_color));
        }
        k += 1;
    }
    assert(spans@.take(k as int) =~= spans@);
    out.push(NEWLINE);
    out
}

/// Writes a line as it came, with a line break at the end.
pub fn pass_line(line: &[u8]) -> (out: Vec<u8>)
    ensures
        out@ == passed_line(line@),
{
    let mut out: Vec<u8> = Vec::new();
    push_bytes(&mut out, line, 0, line.len());
    out.push(NEWLINE);
    assert(line@.subrange(0, line.len() as int) =~= line@);
    assert(out@ =~= passed_line(line@));
    out
}

} // verus!
