//! Tokens: the maximal runs of word bytes, of punctuation and of white
//! space that a line is made of.

use vstd::prelude::*;
use crate::span::{
    alternates, lemma_tiles_bounded, lemma_tiles_cover_once, lemma_tiles_lossless, spanned_bytes,
    tiles, Span,
};

verus! {

/// The three classes of byte, and of token.
#[derive(Clone, Copy, Debug, PartialEq, Eq, Structural)]
pub enum TokenKind {
    Word,
    Punctuation,
    Whitespace,
}

/// A maximal run of bytes of one class, with its place in the line.
pub type Token = Span<TokenKind>;

/// The class of a byte. White space is the space and the control bytes
/// 9 to 13. A word byte is an ASCII letter or digit, the underscore, or
/// any byte from 128 up, so that a character of several bytes never
/// straddles two tokens. Everything else is punctuation.
pub open spec fn class_of(b: u8) -> TokenKind {
    if b == 0x20 || (0x09 <= b && b <= 0x0d) {
        TokenKind::Whitespace
    } else if (0x30 <= b && b <= 0x39) || (0x41 <= b && b <= 0x5a) || (0x61 <= b && b <= 0x7a)
        || b == 0x5f || b >= 0x80 {
        TokenKind::Word
    } else {
        TokenKind::Punctuation
    }
}

/// The class of the byte `b`.
pub fn classify_byte(b: u8) -> (kind: TokenKind)
    ensures
        kind == class_of(b),
{
    if b == 0x20 || (0x09 <= b && b <= 0x0d) {
        TokenKind::Whitespace
    } else if (0x30 <= b && b <= 0x39) || (0x41 <= b && b <= 0x5a) || (0x61 <= b && b <= 0x7a)
        || b == 0x5f || b >= 0x80 {
        TokenKind::Word
    } else {
        TokenKind::Punctuation
    }
}

/// `span` lies around `unit` and has its tag.
pub open spec fn holds_unit<T>(span: Span<T>, unit: Span<T>) -> bool {
    span.start <= unit.start && unit.end <= span.end && span.tag == unit.tag
}

/// Some span of `spans` lies around `unit` and has its tag.
pub open spec fn houses<T>(spans: Seq<Span<T>>, unit: Span<T>) -> bool {
    exists|k: int| 0 <= k < spans.len() && #[trigger] holds_unit(spans[k], unit)
}

/// Joins each run of neighbouring spans that carry the same tag into one
/// span from the start of the first to the end of the last.
pub open spec fn coalesce<T>(units: Seq<Span<T>>) -> Seq<Span<T>>
    decreases units.len(),
{
    if units.len() == 0 {
        Seq::empty()
    } else {
        let before = coalesce(units.drop_last());
        let unit = units.last();
        if before.len() > 0 && before.last().tag == unit.tag {
            before.drop_last().push(
                Span { start: before.last().start, end: unit.end, tag: unit.tag },
            )
        } else {
            before.push(unit)
        }
    }
}

/// Joining the runs of a tiling gives a tiling of the same range, in which
/// no two neighbours carry the same tag and every span of the input lies
/// in a span with its own tag.
pub proof fn lemma_coalesce<T>(units: Seq<Span<T>>, len: int)
    requires
        tiles(units, len),
    ensures
        tiles(coalesce(units), len),
        alternates(coalesce(units)),
        forall|i: int| 0 <= i < units.len() ==> #[trigger] houses(coalesce(units), units[i]),
        units.len() > 0 ==> coalesce(units).len() > 0 && coalesce(units).last().end
            == units.last().end && coalesce(units).last().tag == units.last().tag,
    decreases units.len(),
{
    if units.len() > 0 {
        let n = units.len() as int;
        let rest = units.drop_last();
        let unit = units.last();
        let before = coalesce(rest);
        let out = coalesce(units);
        assert(units[n - 1].start < units[n - 1].end);
        assert forall|i: int| 0 <= i < rest.len() implies rest[i] == units[i] by {}
        if n >= 2 {
            assert(units[n - 2].end == units[n - 1].start);
            assert(rest[n - 2] == units[n - 2]);
        }
        assert(tiles(rest, unit.start as int)) by {
            assert forall|i: int, j: int| 0 <= i && j == i + 1 && j < rest.len() implies (
            #[trigger] rest[i]).end == (#[trigger] rest[j]).start by {
                assert(units[i].end == units[j].start);
            }
        }
        lemma_coalesce(rest, unit.start as int);
        let merged = before.len() > 0 && before.last().tag == unit.tag;
        if merged {
            let m = before.len() as int;
            assert(out.len() == m);
            assert forall|k: int| 0 <= k < m - 1 implies out[k] == before[k] by {}
            assert(before[m - 1].start < before[m - 1].end);
            assert(tiles(out, len)) by {
                assert forall|k: int, j: int| 0 <= k && j == k + 1 && j < out.len() implies (
                #[trigger] out[k]).end == (#[trigger] out[j]).start by {
                    assert(before[k].end == before[j].start);
                }
                assert forall|k: int| 0 <= k < out.len() implies (#[trigger] out[k]).start
                    < out[k].end by {
                    assert(before[k].start < before[k].end);
                }
            }
            assert forall|k: int, j: int| 0 <= k && j == k + 1 && j < out.len() implies (
            #[trigger] out[k]).tag != (#[trigger] out[j]).tag by {
                assert(before[k].tag != before[j].tag);
            }
            assert forall|i: int| 0 <= i < units.len() implies #[trigger] houses(
                out,
                units[i],
            ) by {
                if i < n - 1 {
                    assert(houses(before, rest[i]));
                    let k = choose|k: int|
                        0 <= k < before.len() && #[trigger] holds_unit(before[k], rest[i]);
                    assert(holds_unit(out[k], units[i]));
                } else {
                    assert(holds_unit(out[m - 1], units[i]));
                }
            }
        } else {
            let m = before.len() as int;
            assert(out.len() == m + 1);
            assert forall|k: int| 0 <= k < m implies out[k] == before[k] by {}
            assert(tiles(out, len)) by {
                assert forall|k: int, j: int| 0 <= k && j == k + 1 && j < out.len() implies (
                #[trigger] out[k]).end == (#[trigger] out[j]).start by {
                    if k < m - 1 {
                        assert(before[k].end == before[j].start);
                    }
                }
                assert forall|k: int| 0 <= k < out.len() implies (#[trigger] out[k]).start
                    < out[k].end by {
                    if k < m {
                        assert(before[k].start < before[k].end);
                    }
                }
            }
            assert forall|k: int, j: int| 0 <= k && j == k + 1 && j < out.len() implies (
            #[trigger] out[k]).tag != (#[trigger] out[j]).tag by {
                if k < m - 1 {
                    assert(before[k].tag != before[j].tag);
                }
            }
            assert forall|i: int| 0 <= i < units.len() implies #[trigger] houses(
                out,
                units[i],
            ) by {
                if i < n - 1 {
                    assert(houses(before, rest[i]));
                    let k = choose|k: int|
                        0 <= k < before.len() && #[trigger] holds_unit(before[k], rest[i]);
                    assert(holds_unit(out[k], units[i]));
                } else {
                    assert(holds_unit(out[m], units[i]));
                }
            }
        }
    }
}

/// Each byte of `line` as a span of its own, tagged with its class.
pub open spec fn byte_units(line: Seq<u8>) -> Seq<Token> {
    Seq::new(
        line.len(),
        |i: int| Span { start: i as usize, end: (i + 1) as usize, tag: class_of(line[i]) },
    )
}

/// The tokens of a line: its maximal runs of bytes of one class, in order.
/// The empty line has none.
pub open spec fn tokens_of(line: Seq<u8>) -> Seq<Token> {
    coalesce(byte_units(line))
}

/// The bytes that each token stands for.
pub open spec fn texts(line: Seq<u8>, tokens: Seq<Token>) -> Seq<Seq<u8>> {
    Seq::new(tokens.len(), |i: int| line.subrange(tokens[i].start as int, tokens[i].end as int))
}

/// The tokens of a line tile it, so that reading them in order gives the
/// line back; neighbouring tokens differ in kind; and each byte of a token
/// has the token's class.
pub proof fn lemma_tokens_of(line: Seq<u8>)
    requires
        line.len() <= usize::MAX,
    ensures
        tiles(tokens_of(line), line.len() as int),
        spanned_bytes(line, tokens_of(line)) == line,
        alternates(tokens_of(line)),
        forall|k: int, p: int|
            0 <= k < tokens_of(line).len() && tokens_of(line)[k].start <= p < tokens_of(
                line,
            )[k].end ==> class_of(#[trigger] line[p]) == (#[trigger] tokens_of(line)[k]).tag,
{
    let units = byte_units(line);
    let len = line.len() as int;
    let tokens = tokens_of(line);
    assert(tiles(units, len));
    lemma_coalesce(units, len);
    lemma_tiles_lossless(line, tokens);
    assert forall|k: int, p: int|
        0 <= k < tokens.len() && tokens[k].start <= p < tokens[k].end implies class_of(
        #[trigger] line[p],
    ) == (#[trigger] tokens[k]).tag by {
        lemma_tiles_bounded(tokens, len, k);
        assert(houses(tokens, units[p]));
        let home = choose|h: int|
            0 <= h < tokens.len() && #[trigger] holds_unit(tokens[h], units[p]);
        lemma_tiles_cover_once(tokens, len, p);
        assert(tokens[home].start <= p < tokens[home].end);
        assert(home == k);
    }
}

/// Splits `line` into its tokens.
pub fn tokenize(line: &[u8]) -> (tokens: Vec<Token>)
    ensures
        tokens@ == tokens_of(line@),
{
    let mut tokens: Vec<Token> = Vec::new();
    let ghost units = byte_units(line@);
    if line.len() == 0 {
        return tokens;
    }
    let mut start: usize = 0;
    let mut kind = classify_byte(line[0]);
    let mut i: usize = 1;
    proof {
        assert(units.take(1).drop_last() =~= Seq::empty());
        assert(coalesce(units.take(1).drop_last()) =~= Seq::empty());
        assert(coalesce(units.take(1)) =~= tokens@.push(Span { start, end: i, tag: kind }));
    }
    while i < line.len()
        invariant
            1 <= i <= line.len(),
            start < i,
            units == byte_units(line@),
            coalesce(units.take(i as int)) == tokens@.push(Span { start, end: i, tag: kind }),
        decreases line.len() - i,
    {
        let next = classify_byte(line[i]);
        proof {
            assert(units.take(i + 1).drop_last() =~= units.take(i as int));
            assert(units.take(i + 1).last() == units[i as int]);
        }
        if next != kind {
            tokens.push(Span { start, end: i, tag: kind });
            start = i;
            kind = next;
        } else {
            assert(coalesce(units.take(i + 1)) =~= tokens@.push(
                Span { start, end: (i + 1) as usize, tag: kind },
            ));
        }
        i += 1;
    }
    tokens.push(Span { start, end: i, tag: kind });
    assert(units.take(i as int) =~= units);
    tokens
}

} // verus!
