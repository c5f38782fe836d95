//! Byte ranges that carry a tag, and what it means for them to cover a line.

use vstd::prelude::*;

verus! {

/// The half-open byte range `start..end` of a line, carrying `tag`.
#[derive(Debug, PartialEq, Eq)]
pub struct Span<T> {
    pub start: usize,
    pub end: usize,
    pub tag: T,
}

impl<T: Copy> Clone for Span<T> {
    fn clone(&self) -> (copy: Self)
        ensures
            copy == *self,
    {
        Span { start: self.start, end: self.end, tag: self.tag }
    }
}

impl<T: Copy> Copy for Span<T> {

}

/// The spans are non-empty, each begins where the one before it ends, the
/// first begins at `from` and the last ends at `to`. No span at all chains
/// a position to itself.
pub open spec fn chains<T>(spans: Seq<Span<T>>, from: int, to: int) -> bool {
    &&& forall|i: int| 0 <= i < spans.len() ==> (#[trigger] spans[i]).start < spans[i].end
    &&& forall|i: int, j: int|
        0 <= i && j == i + 1 && j < spans.len() ==> (#[trigger] spans[i]).end
            == (#[trigger] spans[j]).start
    &&& spans.len() == 0 ==> from == to
    &&& spans.len() > 0 ==> spans[0].start == from && spans[spans.len() - 1].end == to
}

/// The spans chain 0 to `len`: they cover `0..len` with no gap and no
/// overlap.
pub open spec fn tiles<T>(spans: Seq<Span<T>>, len: int) -> bool {
    chains(spans, 0, len)
}

/// No two neighbours among the spans carry the same tag.
pub open spec fn alternates<T>(spans: Seq<Span<T>>) -> bool {
    forall|i: int, j: int|
        0 <= i && j == i + 1 && j < spans.len() ==> (#[trigger] spans[i]).tag
            != (#[trigger] spans[j]).tag
}

/// The spans cover `0..len` exactly once: they tile it, and the empty range
/// is covered by a single span of zero length.
pub open spec fn partitions<T>(spans: Seq<Span<T>>, len: int) -> bool {
    if len == 0 {
        spans.len() == 1 && spans[0].start == 0 && spans[0].end == 0
    } else {
        tiles(spans, len)
    }
}

/// The bytes of `line` that the spans name, one span after the other.
pub open spec fn spanned_bytes<T>(line: Seq<u8>, spans: Seq<Span<T>>) -> Seq<u8>
    decreases spans.len(),
{
    if spans.len() == 0 {
        Seq::empty()
    } else {
        spanned_bytes(line, spans.drop_last()) + line.subrange(
            spans.last().start as int,
            spans.last().end as int,
        )
    }
}

/// Two chains that meet make one chain.
pub proof fn lemma_chains_join<T>(
    first: Seq<Span<T>>,
    second: Seq<Span<T>>,
    from: int,
    mid: int,
    to: int,
)
    requires
        chains(first, from, mid),
        chains(second, mid, to),
    ensures
        chains(first + second, from, to),
{
    let all = first + second;
    let n = first.len() as int;
    assert forall|i: int| 0 <= i < all.len() implies (#[trigger] all[i]).start < all[i].end by {
        if i < n {
            assert(all[i] == first[i]);
        } else {
            assert(all[i] == second[i - n]);
        }
    }
    assert forall|i: int, j: int| 0 <= i && j == i + 1 && j < all.len() implies (
    #[trigger] all[i]).end == (#[trigger] all[j]).start by {
        if j < n {
            assert(all[i] == first[i] && all[j] == first[j]);
        } else if i < n {
            assert(all[i] == first[n - 1] && all[j] == second[0]);
        } else {
            assert(all[i] == second[i - n] && all[j] == second[j - n]);
        }
    }
    if all.len() > 0 {
        if n > 0 {
            assert(all[0] == first[0]);
        } else {
            assert(all[0] == second[0]);
        }
        if second.len() > 0 {
            assert(all[all.len() - 1] == second[second.len() - 1]);
        } else {
            assert(all[all.len() - 1] == first[n - 1]);
        }
    }
}

/// In a tiling, a later span begins no earlier than an earlier one ends.
pub proof fn lemma_tiles_ordered<T>(spans: Seq<Span<T>>, len: int, i: int, j: int)
    requires
        tiles(spans, len),
        0 <= i < j < spans.len(),
    ensures
        spans[i].end <= spans[j].start,
    decreases j - i,
{
    assert(spans[i].end == spans[i + 1].start);
    if i + 1 < j {
        lemma_tiles_ordered(spans, len, i + 1, j);
        assert(spans[i + 1].start < spans[i + 1].end);
    }
}

/// Every span of a tiling lies inside `0..len`.
pub proof fn lemma_tiles_bounded<T>(spans: Seq<Span<T>>, len: int, i: int)
    requires
        tiles(spans, len),
        0 <= i < spans.len(),
    ensures
        0 <= spans[i].start < spans[i].end <= len,
{
    let last = spans.len() - 1;
    assert(spans[i].start < spans[i].end);
    assert(spans[last].start < spans[last].end);
    if i < last {
        lemma_tiles_ordered(spans, len, i, last);
    }
}

/// Each byte position of a tiled range lies in one span and in no other.
pub proof fn lemma_tiles_cover_once<T>(spans: Seq<Span<T>>, len: int, p: int)
    requires
        tiles(spans, len),
        0 <= p < len,
    ensures
        exists|k: int| 0 <= k < spans.len() && (#[trigger] spans[k]).start <= p < spans[k].end,
        forall|a: int, b: int|
            0 <= a < spans.len() && 0 <= b < spans.len() && (#[trigger] spans[a]).start <= p
                < spans[a].end && (#[trigger] spans[b]).start <= p < spans[b].end ==> a == b,
{
    lemma_tiles_cover_from(spans, len, p, 0);
    assert forall|a: int, b: int|
        0 <= a < spans.len() && 0 <= b < spans.len() && (#[trigger] spans[a]).start <= p
            < spans[a].end && (#[trigger] spans[b]).start <= p < spans[b].end implies a == b by {
        if a < b {
            lemma_tiles_ordered(spans, len, a, b);
        }
        if b < a {
            lemma_tiles_ordered(spans, len, b, a);
        }
    }
}

proof fn lemma_tiles_cover_from<T>(spans: Seq<Span<T>>, len: int, p: int, from: int)
    requires
        tiles(spans, len),
        0 <= from < spans.len(),
        spans[from].start <= p < len,
    ensures
        exists|k: int| 0 <= k < spans.len() && (#[trigger] spans[k]).start <= p < spans[k].end,
    decreases spans.len() - from,
{
    if p < spans[from].end {
    } else {
        assert(from < spans.len() - 1);
        assert(spans[from].end == spans[from + 1].start);
        lemma_tiles_cover_from(spans, len, p, from + 1);
    }
}

/// Reading the spans of a tiling one after the other gives the line back.
pub proof fn lemma_tiles_lossless<T>(line: Seq<u8>, spans: Seq<Span<T>>)
    requires
        tiles(spans, line.len() as int),
    ensures
        spanned_bytes(line, spans) == line,
{
    lemma_spanned_prefix(line, spans, spans.len() as int);
    assert(spans.take(spans.len() as int) == spans);
    if spans.len() > 0 {
        assert(line.subrange(0, line.len() as int) == line);
    } else {
        assert(line == Seq::<u8>::empty());
    }
}

proof fn lemma_spanned_prefix<T>(line: Seq<u8>, spans: Seq<Span<T>>, n: int)
    requires
        tiles(spans, line.len() as int),
        0 <= n <= spans.len(),
    ensures
        n == 0 ==> spanned_bytes(line, spans.take(n)) == Seq::<u8>::empty(),
        n > 0 ==> spanned_bytes(line, spans.take(n)) == line.subrange(
            0,
            spans[n - 1].end as int,
        ),
    decreases n,
{
    if n == 0 {
    } else {
        lemma_spanned_prefix(line, spans, n - 1);
        lemma_tiles_bounded(spans, line.len() as int, n - 1);
        let part = spans.take(n);
        assert(part.drop_last() == spans.take(n - 1));
        assert(part.last() == spans[n - 1]);
        if n - 1 > 0 {
            assert(spans[n - 2].end == spans[n - 1].start);
            lemma_tiles_bounded(spans, line.len() as int, n - 2);
        }
        assert(spanned_bytes(line, part) =~= line.subrange(0, spans[n - 1].end as int));
    }
}

} // verus!
