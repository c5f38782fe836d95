//! The changed and unchanged stretches of a line, found by aligning its
//! tokens with those of the line it is paired with.

use vstd::prelude::*;
use crate::span::{Span, alternates, chains, partitions, tiles, lemma_tiles_bounded};
use crate::token::{
    coalesce, houses, lemma_coalesce, lemma_tokens_of, texts, tokenize, tokens_of, Token,
};
use crate::align::{align_tokens, left_flags, right_flags, tokens_within};

verus! {

/// Whether a stretch of a line differs from the line it is paired with.
#[derive(Clone, Copy, Debug, PartialEq, Eq, Structural)]
pub enum EditTag {
    Unchanged,
    Changed,
}

/// A stretch of a line that is changed, or unchanged, as a whole.
pub type EditSpan = Span<EditTag>;

/// A token that the alignment keeps is unchanged; any other is changed.
pub open spec fn tag_of(kept: bool) -> EditTag {
    if kept {
        EditTag::Unchanged
    } else {
        EditTag::Changed
    }
}

/// The tokens, each tagged by whether the alignment keeps it.
pub open spec fn retagged(tokens: Seq<Token>, kept: Seq<bool>) -> Seq<EditSpan> {
    Seq::new(
        tokens.len(),
        |i: int| Span { start: tokens[i].start, end: tokens[i].end, tag: tag_of(kept[i]) },
    )
}

/// The edit spans of a line with these tokens: neighbouring tokens of the
/// same tag are joined into one span. A line without tokens has a single
/// unchanged span of no length.
pub open spec fn edit_spans_of(tokens: Seq<Token>, kept: Seq<bool>) -> Seq<EditSpan> {
    if tokens.len() == 0 {
        seq![Span { start: 0usize, end: 0usize, tag: EditTag::Unchanged }]
    } else {
        coalesce(retagged(tokens, kept))
    }
}

/// The edit spans of tokens that tile a line partition that line; no two
/// neighbours carry the same tag; and each token lies in a span that is
/// unchanged exactly if the token is kept.
pub proof fn lemma_edit_spans_of(tokens: Seq<Token>, kept: Seq<bool>, len: int)
    requires
        tiles(tokens, len),
        kept.len() == tokens.len(),
    ensures
        partitions(edit_spans_of(tokens, kept), len),
        alternates(edit_spans_of(tokens, kept)),
        forall|i: int|
            0 <= i < tokens.len() ==> #[trigger] houses(
                edit_spans_of(tokens, kept),
                retagged(tokens, kept)[i],
            ),
{
    let units = retagged(tokens, kept);
    if tokens.len() > 0 {
        assert(tokens[0].start < tokens[0].end);
        lemma_tiles_bounded(tokens, len, 0);
        assert(tiles(units, len)) by {
            assert forall|i: int, j: int| 0 <= i && j == i + 1 && j < units.len() implies (
            #[trigger] units[i]).end == (#[trigger] units[j]).start by {
                assert(tokens[i].end == tokens[j].start);
            }
        }
        lemma_coalesce(units, len);
    }
}

/// The edit spans of the removed line of a pair.
pub open spec fn removed_edits(removed: Seq<u8>, added: Seq<u8>) -> Seq<EditSpan> {
    let left = tokens_of(removed);
    let right = tokens_of(added);
    edit_spans_of(left, left_flags(texts(removed, left), texts(added, right)))
}

/// The edit spans of the added line of a pair.
pub open spec fn added_edits(removed: Seq<u8>, added: Seq<u8>) -> Seq<EditSpan> {
    let left = tokens_of(removed);
    let right = tokens_of(added);
    edit_spans_of(right, right_flags(texts(removed, left), texts(added, right)))
}

/// The edit spans of the removed line of a pair partition that line,
/// whatever it is held against, and no two neighbours carry the same tag.
pub proof fn lemma_removed_edits_partition(removed: Seq<u8>, added: Seq<u8>)
    requires
        removed.len() <= usize::MAX,
    ensures
        partitions(removed_edits(removed, added), removed.len() as int),
        alternates(removed_edits(removed, added)),
{
    let left = tokens_of(removed);
    let right = tokens_of(added);
    lemma_tokens_of(removed);
    lemma_edit_spans_of(
        left,
        left_flags(texts(removed, left), texts(added, right)),
        removed.len() as int,
    );
}

/// The edit spans of the added line of a pair partition that line,
/// whatever it is held against, and no two neighbours carry the same tag.
pub proof fn lemma_added_edits_partition(removed: Seq<u8>, added: Seq<u8>)
    requires
        added.len() <= usize::MAX,
    ensures
        partitions(added_edits(removed, added), added.len() as int),
        alternates(added_edits(removed, added)),
{
    let left = tokens_of(removed);
    let right = tokens_of(added);
    lemma_tokens_of(added);
    lemma_edit_spans_of(
        right,
        right_flags(texts(removed, left), texts(added, right)),
        added.len() as int,
    );
}

/// `left` and `right` are the edit spans of the two lines of a pair.
pub open spec fn is_diff_of(
    removed: Seq<u8>,
    added: Seq<u8>,
    left: Seq<EditSpan>,
    right: Seq<EditSpan>,
) -> bool {
    left == removed_edits(removed, added) && right == added_edits(removed, added)
}

/// Two lines have one alignment: whatever is the result of holding the
/// same two lines against each other is the same spans.
pub proof fn lemma_diff_is_determined(
    removed: Seq<u8>,
    added: Seq<u8>,
    first: (Seq<EditSpan>, Seq<EditSpan>),
    second: (Seq<EditSpan>, Seq<EditSpan>),
)
    requires
        is_diff_of(removed, added, first.0, first.1),
        is_diff_of(removed, added, second.0, second.1),
    ensures
        first == second,
{
}

/// Joins the tokens into edit spans, by whether each is kept.
pub fn edit_spans(tokens: &Vec<Token>, kept: &Vec<bool>) -> (spans: Vec<EditSpan>)
    requires
        kept.len() == tokens.len(),
    ensures
        spans@ == edit_spans_of(tokens@, kept@),
{
    let mut spans: Vec<EditSpan> = Vec::new();
    let ghost units = retagged(tokens@, kept@);
    if tokens.len() == 0 {
        spans.push(Span { start: 0, end: 0, tag: EditTag::Unchanged });
        assert(spans@ =~= edit_spans_of(tokens@, kept@));
        return spans;
    }
    let mut start: usize = tokens[0].start;
    let mut end: usize = tokens[0].end;
    let mut tag = if kept[0] {
        EditTag::Unchanged
    } else {
        EditTag::Changed
    };
    let mut i: usize = 1;
    proof {
        assert(units.take(1).drop_last() =~= Seq::empty());
        assert(coalesce(units.take(1).drop_last()) =~= Seq::empty());
        assert(coalesce(units.take(1)) =~= spans@.push(Span { start, end, tag }));
    }
    while i < tokens.len()
        invariant
            1 <= i <= tokens.len(),
            kept.len() == tokens.len(),
            units == retagged(tokens@, kept@),
            coalesce(units.take(i as int)) == spans@.push(Span { start, end, tag }),
        decreases tokens.len() - i,
    {
        let next = if kept[i] {
            EditTag::Unchanged
        } else {
            EditTag::Changed
        };
        proof {
            assert(units.take(i + 1).drop_last() =~= units.take(i as int));
            assert(units.take(i + 1).last() == units[i as int]);
        }
        if next != tag {
            spans.push(Span { start, end, tag });
            start = tokens[i].start;
            end = tokens[i].end;
            tag = next;
        } else {
            end = tokens[i].end;
            assert(coalesce(units.take(i + 1)) =~= spans@.push(Span { start, end, tag }));
        }
        i += 1;
    }
    spans.push(Span { start, end, tag });
    assert(units.take(i as int) =~= units);
    spans
}

/// Finds what changed between a removed line and the added line it is
/// paired with: the tokens of a longest common subsequence are unchanged,
/// all others are changed. The result is a function of the two lines
/// alone, and the spans of each side partition that side's line.
pub fn diff_lines(removed: &[u8], added: &[u8]) -> (edits: (Vec<EditSpan>, Vec<EditSpan>))
    ensures
        is_diff_of(removed@, added@, edits.0@, edits.1@),
        partitions(edits.0@, removed.len() as int),
        partitions(edits.1@, added.len() as int),
{
    let left = tokenize(removed);
    let right = tokenize(added);
    let removed_len = removed.len();
    let added_len = added.len();
    proof {
        lemma_tokens_of(removed@);
        lemma_tokens_of(added@);
        assert forall|k: int| 0 <= k < left.len() implies (#[trigger] left@[k]).start
            <= left@[k].end <= removed.len() by {
            lemma_tiles_bounded(left@, removed.len() as int, k);
        }
        assert forall|k: int| 0 <= k < right.len() implies (#[trigger] right@[k]).start
            <= right@[k].end <= added.len() by {
            lemma_tiles_bounded(right@, added.len() as int, k);
        }
        lemma_removed_edits_partition(removed@, added@);
        lemma_added_edits_partition(removed@, added@);
    }
    let (keep_left, keep_right) = align_tokens(removed, &left, added, &right);
    let removed_spans = edit_spans(&left, &keep_left);
    let added_spans = edit_spans(&right, &keep_right);
    (removed_spans, added_spans)
}

} // verus!
