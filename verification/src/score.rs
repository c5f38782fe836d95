//! How much alike two lines are.

use vstd::prelude::*;
use crate::span::lemma_tiles_bounded;
use crate::token::{lemma_tokens_of, texts, tokenize, tokens_of};
use crate::align::{lcs_len, lcs_length, lemma_lcs_bounded};

verus! {

/// The score of two lines with the same tokens. Scores are parts per
/// million: a score `s` stands for the similarity `s / 1_000_000`.
pub const FULL_SCORE: u32 = 1_000_000;

/// How much alike two lines are, in parts per million: twice the number of
/// tokens of their longest common subsequence, over the number of tokens
/// of both, rounded down. Two lines without tokens score 0.
pub open spec fn similarity_of(removed: Seq<u8>, added: Seq<u8>) -> nat {
    let left = tokens_of(removed);
    let right = tokens_of(added);
    let total = left.len() + right.len();
    if total == 0 {
        0
    } else {
        2 * lcs_len(
            texts(removed, left),
            texts(added, right),
            left.len() as int,
            right.len() as int,
        ) * 1_000_000 / total
    }
}

/// The score that decides whether two lines may be paired: their
/// similarity, and 0 where either is longer than `max_len` bytes, so that
/// such a line is never aligned with another.
pub open spec fn score_of(removed: Seq<u8>, added: Seq<u8>, max_len: int) -> nat {
    if removed.len() > max_len || added.len() > max_len {
        0
    } else {
        similarity_of(removed, added)
    }
}

/// A similarity is at most one, and so is a score.
pub proof fn lemma_score_bounded(removed: Seq<u8>, added: Seq<u8>, max_len: int)
    ensures
        similarity_of(removed, added) <= FULL_SCORE,
        score_of(removed, added, max_len) <= FULL_SCORE,
{
    let left = tokens_of(removed);
    let right = tokens_of(added);
    let total = left.len() + right.len();
    let common = lcs_len(
        texts(removed, left),
        texts(added, right),
        left.len() as int,
        right.len() as int,
    );
    lemma_lcs_bounded(
        texts(removed, left),
        texts(added, right),
        left.len() as int,
        right.len() as int,
    );
    if total > 0 {
        let scaled = 2 * common * 1_000_000;
        assert(scaled / total <= 1_000_000) by (nonlinear_arith)
            requires
                scaled <= total * 1_000_000,
                total > 0,
        ;
    }
}

/// How much alike two lines are, in parts per million.
pub fn similarity(removed: &[u8], added: &[u8]) -> (score: u32)
    ensures
        score == similarity_of(removed@, added@),
        score <= FULL_SCORE,
{
    let left = tokenize(removed);
    let right = tokenize(added);
    let removed_len = removed.len();
    let added_len = added.len();
    let ghost a = texts(removed@, left@);
    let ghost b = texts(added@, right@);
    proof {
        lemma_tokens_of(removed@);
        lemma_tokens_of(added@);
        assert forall|k: int| 0 <= k < left.len() implies (#[trigger] left@[k]).start
            <= left@[k].end <= removed.len() by {
            lemma_tiles_bounded(left@, removed.len() as int, k);
        }
        assert forall|k: int| 0 <= k < right.len() implies (#[trigger] right@[k]).start
            <= right@[k].end <= added.len() by {
            lemma_tiles_bounded(right@, added.len() as int, k);
        }
        lemma_lcs_bounded(a, b, left.len() as int, right.len() as int);
    }
    let common = lcs_length(removed, &left, added, &right);
    let total: u128 = left.len() as u128 + right.len() as u128;
    if total == 0 {
        return 0;
    }
    let scaled: u128 = 2 * (common as u128) * 1_000_000;
    let score: u128 = scaled / total;
    assert(score <= 1_000_000) by (nonlinear_arith)
        requires
            scaled <= total * 1_000_000,
            total > 0,
            score == scaled / total,
    ;
    score as u32
}

/// The score that decides whether two lines may be paired.
pub fn line_score(removed: &[u8], added: &[u8], max_len: usize) -> (score: u32)
    ensures
        score == score_of(removed@, added@, max_len as int),
        score <= FULL_SCORE,
{
    if removed.len() > max_len || added.len() > max_len {
        0
    } else {
        similarity(removed, added)
    }
}

/// The bytes of each of the lines.
pub open spec fn line_texts(lines: Seq<Vec<u8>>) -> Seq<Seq<u8>> {
    Seq::new(lines.len(), |i: int| lines[i]@)
}

/// The rows of a table of scores.
pub open spec fn grid(scores: Seq<Vec<u32>>) -> Seq<Seq<u32>> {
    Seq::new(scores.len(), |i: int| scores[i]@)
}

/// The score of every removed line with every added line: a row for each
/// removed line, and in it a score for each added line.
pub open spec fn score_grid(removed: Seq<Seq<u8>>, added: Seq<Seq<u8>>, max_len: int) -> Seq<
    Seq<u32>,
> {
    Seq::new(
        removed.len(),
        |i: int| Seq::new(added.len(), |j: int| score_of(removed[i], added[j], max_len) as u32),
    )
}

/// Scores every removed line against every added line.
pub fn score_lines(removed: &Vec<Vec<u8>>, added: &Vec<Vec<u8>>, max_len: usize) -> (scores: Vec<
    Vec<u32>,
>)
    ensures
        grid(scores@) == score_grid(line_texts(removed@), line_texts(added@), max_len as int),
{
    let ghost want = score_grid(line_texts(removed@), line_texts(added@), max_len as int);
    let mut scores: Vec<Vec<u32>> = Vec::new();
    let mut i: usize = 0;
    while i < removed.len()
        invariant
            i <= removed.len(),
            scores.len() == i,
            want == score_grid(line_texts(removed@), line_texts(added@), max_len as int),
            forall|r: int| 0 <= r < i ==> (#[trigger] scores@[r])@ == want[r],
        decreases removed.len() - i,
    {
        let mut row: Vec<u32> = Vec::new();
        let mut j: usize = 0;
        while j < added.len()
            invariant
                i < removed.len(),
                j <= added.len(),
                row.len() == j,
                want == score_grid(line_texts(removed@), line_texts(added@), max_len as int),
                forall|c: int| 0 <= c < j ==> #[trigger] row@[c] == want[i as int][c],
            decreases added.len() - j,
        {
            let score = line_score(removed[i].as_slice(), added[j].as_slice(), max_len);
            row.push(score);
            j += 1;
        }
        assert(row@ =~= want[i as int]);
        scores.push(row);
        i += 1;
    }
    assert(grid(scores@) =~= want);
    scores
}

} // verus!
