//! The longest common subsequence of two token sequences, and the tokens
//! of each side that it keeps.

use vstd::prelude::*;
use crate::token::{Token, texts};

verus! {

/// The length of the longest common subsequence of the first `i` items of
/// `a` and the first `j` items of `b`.
pub open spec fn lcs_len<A>(a: Seq<A>, b: Seq<A>, i: int, j: int) -> nat
    decreases i + j,
{
    if i <= 0 || j <= 0 {
        0
    } else if a[i - 1] == b[j - 1] {
        lcs_len(a, b, i - 1, j - 1) + 1
    } else {
        let without_a = lcs_len(a, b, i - 1, j);
        let without_b = lcs_len(a, b, i, j - 1);
        if without_a >= without_b {
            without_a
        } else {
            without_b
        }
    }
}

/// The pairs of positions, in rising order, of one longest common
/// subsequence of the first `i` items of `a` and the first `j` items of
/// `b`. Walking back from the two ends, equal last items are always
/// matched; otherwise the last item of `a` is let go, unless letting go of
/// the last item of `b` leaves a strictly longer common subsequence.
pub open spec fn alignment<A>(a: Seq<A>, b: Seq<A>, i: int, j: int) -> Seq<(int, int)>
    decreases i + j,
{
    if i <= 0 || j <= 0 {
        Seq::empty()
    } else if a[i - 1] == b[j - 1] {
        alignment(a, b, i - 1, j - 1).push((i - 1, j - 1))
    } else if lcs_len(a, b, i - 1, j) >= lcs_len(a, b, i, j - 1) {
        alignment(a, b, i - 1, j)
    } else {
        alignment(a, b, i, j - 1)
    }
}

/// Position `p` of `a` is matched in `alignment(a, b, i, j)`.
pub open spec fn kept_left<A>(a: Seq<A>, b: Seq<A>, i: int, j: int, p: int) -> bool
    decreases i + j,
{
    if i <= 0 || j <= 0 {
        false
    } else if a[i - 1] == b[j - 1] {
        p == i - 1 || kept_left(a, b, i - 1, j - 1, p)
    } else if lcs_len(a, b, i - 1, j) >= lcs_len(a, b, i, j - 1) {
        kept_left(a, b, i - 1, j, p)
    } else {
        kept_left(a, b, i, j - 1, p)
    }
}

/// Position `q` of `b` is matched in `alignment(a, b, i, j)`.
pub open spec fn kept_right<A>(a: Seq<A>, b: Seq<A>, i: int, j: int, q: int) -> bool
    decreases i + j,
{
    if i <= 0 || j <= 0 {
        false
    } else if a[i - 1] == b[j - 1] {
        q == j - 1 || kept_right(a, b, i - 1, j - 1, q)
    } else if lcs_len(a, b, i - 1, j) >= lcs_len(a, b, i, j - 1) {
        kept_right(a, b, i - 1, j, q)
    } else {
        kept_right(a, b, i, j - 1, q)
    }
}

/// For each item of `a`, whether the alignment of all of `a` with all of
/// `b` keeps it.
pub open spec fn left_flags<A>(a: Seq<A>, b: Seq<A>) -> Seq<bool> {
    Seq::new(a.len(), |p: int| kept_left(a, b, a.len() as int, b.len() as int, p))
}

/// For each item of `b`, whether the alignment of all of `a` with all of
/// `b` keeps it.
pub open spec fn right_flags<A>(a: Seq<A>, b: Seq<A>) -> Seq<bool> {
    Seq::new(b.len(), |q: int| kept_right(a, b, a.len() as int, b.len() as int, q))
}

/// The pairs name equal items of `a` and `b`, and rise strictly on both
/// sides.
pub open spec fn is_common_subsequence<A>(a: Seq<A>, b: Seq<A>, pairs: Seq<(int, int)>) -> bool {
    &&& forall|k: int|
        0 <= k < pairs.len() ==> 0 <= (#[trigger] pairs[k]).0 < a.len() && 0 <= pairs[k].1
            < b.len() && a[pairs[k].0] == b[pairs[k].1]
    &&& forall|k: int, l: int|
        0 <= k < l < pairs.len() ==> (#[trigger] pairs[k]).0 < (#[trigger] pairs[l]).0
            && pairs[k].1 < pairs[l].1
}

/// Every pair lies before position `i` on the left and `j` on the right.
pub open spec fn lies_before(pairs: Seq<(int, int)>, i: int, j: int) -> bool {
    forall|k: int| 0 <= k < pairs.len() ==> (#[trigger] pairs[k]).0 < i && pairs[k].1 < j
}

/// A longest common subsequence is no longer than either side.
pub proof fn lemma_lcs_bounded<A>(a: Seq<A>, b: Seq<A>, i: int, j: int)
    requires
        0 <= i,
        0 <= j,
    ensures
        lcs_len(a, b, i, j) <= i,
        lcs_len(a, b, i, j) <= j,
    decreases i + j,
{
    if i > 0 && j > 0 {
        lemma_lcs_bounded(a, b, i - 1, j - 1);
        lemma_lcs_bounded(a, b, i - 1, j);
        lemma_lcs_bounded(a, b, i, j - 1);
    }
}

/// The alignment is a common subsequence, and it has the length that
/// `lcs_len` gives.
pub proof fn lemma_alignment_is_common<A>(a: Seq<A>, b: Seq<A>, i: int, j: int)
    requires
        0 <= i <= a.len(),
        0 <= j <= b.len(),
    ensures
        is_common_subsequence(a, b, alignment(a, b, i, j)),
        lies_before(alignment(a, b, i, j), i, j),
        alignment(a, b, i, j).len() == lcs_len(a, b, i, j),
    decreases i + j,
{
    if i > 0 && j > 0 {
        if a[i - 1] == b[j - 1] {
            lemma_alignment_is_common(a, b, i - 1, j - 1);
            let shorter = alignment(a, b, i - 1, j - 1);
            let pairs = alignment(a, b, i, j);
            assert(pairs == shorter.push((i - 1, j - 1)));
            assert forall|k: int| 0 <= k < shorter.len() implies pairs[k] == shorter[k] by {}
            assert forall|k: int, l: int| 0 <= k < l < pairs.len() implies (#[trigger] pairs[k]).0
                < (#[trigger] pairs[l]).0 && pairs[k].1 < pairs[l].1 by {
                assert(pairs[k] == shorter[k]);
                if l < shorter.len() {
                    assert(pairs[l] == shorter[l]);
                }
            }
        } else if lcs_len(a, b, i - 1, j) >= lcs_len(a, b, i, j - 1) {
            lemma_alignment_is_common(a, b, i - 1, j);
        } else {
            lemma_alignment_is_common(a, b, i, j - 1);
        }
    }
}

/// No common subsequence is longer than `lcs_len` says.
pub proof fn lemma_lcs_is_longest<A>(a: Seq<A>, b: Seq<A>, i: int, j: int, pairs: Seq<(int, int)>)
    requires
        0 <= i <= a.len(),
        0 <= j <= b.len(),
        is_common_subsequence(a, b, pairs),
        lies_before(pairs, i, j),
    ensures
        pairs.len() <= lcs_len(a, b, i, j),
    decreases i + j,
{
    if pairs.len() > 0 {
        let last = pairs.last();
        assert(last == pairs[pairs.len() - 1]);
        assert(i > 0 && j > 0);
        if a[i - 1] == b[j - 1] {
            let rest = pairs.drop_last();
            assert forall|k: int| 0 <= k < rest.len() implies (#[trigger] rest[k]).0 < i - 1
                && rest[k].1 < j - 1 by {
                assert(rest[k] == pairs[k]);
            }
            assert(is_common_subsequence(a, b, rest)) by {
                assert forall|k: int| 0 <= k < rest.len() implies rest[k] == pairs[k] by {}
            }
            lemma_lcs_is_longest(a, b, i - 1, j - 1, rest);
        } else if last.0 < i - 1 {
            assert forall|k: int| 0 <= k < pairs.len() implies (#[trigger] pairs[k]).0 < i - 1
                && pairs[k].1 < j by {
                if k < pairs.len() - 1 {
                    assert(pairs[k].0 < pairs[pairs.len() - 1].0);
                }
            }
            lemma_lcs_is_longest(a, b, i - 1, j, pairs);
        } else {
            assert(last.1 < j - 1);
            assert forall|k: int| 0 <= k < pairs.len() implies (#[trigger] pairs[k]).0 < i
                && pairs[k].1 < j - 1 by {
                if k < pairs.len() - 1 {
                    assert(pairs[k].1 < pairs[pairs.len() - 1].1);
                }
            }
            lemma_lcs_is_longest(a, b, i, j - 1, pairs);
        }
    }
}

/// A position is kept exactly if the alignment holds a pair for it.
pub proof fn lemma_kept_is_aligned<A>(a: Seq<A>, b: Seq<A>, i: int, j: int, p: int, q: int)
    ensures
        kept_left(a, b, i, j, p) <==> exists|k: int|
            0 <= k < alignment(a, b, i, j).len() && (#[trigger] alignment(a, b, i, j)[k]).0 == p,
        kept_right(a, b, i, j, q) <==> exists|k: int|
            0 <= k < alignment(a, b, i, j).len() && (#[trigger] alignment(a, b, i, j)[k]).1 == q,
    decreases i + j,
{
    if i > 0 && j > 0 {
        let pairs = alignment(a, b, i, j);
        if a[i - 1] == b[j - 1] {
            lemma_kept_is_aligned(a, b, i - 1, j - 1, p, q);
            let shorter = alignment(a, b, i - 1, j - 1);
            assert(pairs == shorter.push((i - 1, j - 1)));
            assert(pairs[shorter.len() as int] == (i - 1, j - 1));
            assert forall|k: int| 0 <= k < shorter.len() implies pairs[k] == shorter[k] by {}
            if kept_left(a, b, i - 1, j - 1, p) {
                let k = choose|k: int| 0 <= k < shorter.len() && (#[trigger] shorter[k]).0 == p;
                assert(pairs[k].0 == p);
            }
            if kept_right(a, b, i - 1, j - 1, q) {
                let k = choose|k: int| 0 <= k < shorter.len() && (#[trigger] shorter[k]).1 == q;
                assert(pairs[k].1 == q);
            }
            if exists|k: int| 0 <= k < pairs.len() && (#[trigger] pairs[k]).0 == p {
                let k = choose|k: int| 0 <= k < pairs.len() && (#[trigger] pairs[k]).0 == p;
                if k < shorter.len() {
                    assert(shorter[k].0 == p);
                }
            }
            if exists|k: int| 0 <= k < pairs.len() && (#[trigger] pairs[k]).1 == q {
                let k = choose|k: int| 0 <= k < pairs.len() && (#[trigger] pairs[k]).1 == q;
                if k < shorter.len() {
                    assert(shorter[k].1 == q);
                }
            }
        } else if lcs_len(a, b, i - 1, j) >= lcs_len(a, b, i, j - 1) {
            lemma_kept_is_aligned(a, b, i - 1, j, p, q);
        } else {
            lemma_kept_is_aligned(a, b, i, j - 1, p, q);
        }
    }
}

/// Every token lies inside a line of `len` bytes.
pub open spec fn tokens_within(tokens: Seq<Token>, len: int) -> bool {
    forall|k: int| 0 <= k < tokens.len() ==> (#[trigger] tokens[k]).start <= tokens[k].end <= len
}

/// Whether token `l` of `left` and token `r` of `right` hold the same bytes.
pub fn same_text(left: &[u8], l: Token, right: &[u8], r: Token) -> (same: bool)
    requires
        l.start <= l.end <= left.len(),
        r.start <= r.end <= right.len(),
    ensures
        same == (left@.subrange(l.start as int, l.end as int) == right@.subrange(
            r.start as int,
            r.end as int,
        )),
{
    let ghost lhs = left@.subrange(l.start as int, l.end as int);
    let ghost rhs = right@.subrange(r.start as int, r.end as int);
    let width = l.end - l.start;
    if r.end - r.start != width {
        assert(lhs.len() != rhs.len());
        return false;
    }
    let mut k: usize = 0;
    while k < width
        invariant
            k <= width,
            width == l.end - l.start,
            width == r.end - r.start,
            l.end <= left.len(),
            r.end <= right.len(),
            lhs == left@.subrange(l.start as int, l.end as int),
            rhs == right@.subrange(r.start as int, r.end as int),
            forall|t: int| 0 <= t < k ==> lhs[t] == rhs[t],
        decreases width - k,
    {
        if left[l.start + k] != right[r.start + k] {
            assert(lhs[k as int] != rhs[k as int]);
            return false;
        }
        k += 1;
    }
    assert(lhs =~= rhs);
    true
}

/// `table[r][c]` is the length of the longest common subsequence of the
/// first `r + 1` items of `a` and the first `c + 1` items of `b`.
pub open spec fn table_holds<A>(table: Seq<Vec<usize>>, a: Seq<A>, b: Seq<A>) -> bool {
    &&& table.len() == a.len()
    &&& forall|r: int| 0 <= r < table.len() ==> (#[trigger] table[r]).len() == b.len()
    &&& forall|r: int, c: int|
        0 <= r < a.len() && 0 <= c < b.len() ==> #[trigger] table[r]@[c] == lcs_len(
            a,
            b,
            r + 1,
            c + 1,
        )
}

/// Fills the table of the lengths of the longest common subsequences of
/// every pair of prefixes, row by row.
pub fn lcs_table(
    left: &[u8],
    left_tokens: &Vec<Token>,
    right: &[u8],
    right_tokens: &Vec<Token>,
) -> (table: Vec<Vec<usize>>)
    requires
        tokens_within(left_tokens@, left.len() as int),
        tokens_within(right_tokens@, right.len() as int),
    ensures
        table_holds(table@, texts(left@, left_tokens@), texts(right@, right_tokens@)),
{
    let ghost a = texts(left@, left_tokens@);
    let ghost b = texts(right@, right_tokens@);
    let rows = left_tokens.len();
    let cols = right_tokens.len();
    let mut table: Vec<Vec<usize>> = Vec::new();
    let mut i: usize = 0;
    while i < rows
        invariant
            i <= rows,
            rows == left_tokens.len(),
            cols == right_tokens.len(),
            a == texts(left@, left_tokens@),
            b == texts(right@, right_tokens@),
            tokens_within(left_tokens@, left.len() as int),
            tokens_within(right_tokens@, right.len() as int),
            table.len() == i,
            forall|r: int| 0 <= r < i ==> (#[trigger] table@[r]).len() == cols,
            forall|r: int, c: int|
                0 <= r < i && 0 <= c < cols ==> #[trigger] table@[r]@[c] == lcs_len(
                    a,
                    b,
                    r + 1,
                    c + 1,
                ),
        decreases rows - i,
    {
        let mut row: Vec<usize> = Vec::new();
        let mut j: usize = 0;
        while j < cols
            invariant
                i < rows,
                j <= cols,
                rows == left_tokens.len(),
                cols == right_tokens.len(),
                a == texts(left@, left_tokens@),
                b == texts(right@, right_tokens@),
                tokens_within(left_tokens@, left.len() as int),
                tokens_within(right_tokens@, right.len() as int),
                table.len() == i,
                forall|r: int| 0 <= r < i ==> (#[trigger] table@[r]).len() == cols,
                forall|r: int, c: int|
                    0 <= r < i && 0 <= c < cols ==> #[trigger] table@[r]@[c] == lcs_len(
                        a,
                        b,
                        r + 1,
                        c + 1,
                    ),
                row.len() == j,
                forall|c: int| 0 <= c < j ==> #[trigger] row@[c] == lcs_len(a, b, i + 1, c + 1),
            decreases cols - j,
        {
            let same = same_text(left, left_tokens[i], right, right_tokens[j]);
            assert(same == (a[i as int] == b[j as int]));
            let value: usize = if same {
                let diagonal: usize = if i == 0 || j == 0 {
                    0
                } else {
                    table[i - 1][j - 1]
                };
                proof {
                    lemma_lcs_bounded(a, b, i as int, j as int);
                    assert(diagonal == lcs_len(a, b, i as int, j as int));
                }
                diagonal + 1
            } else {
                let above: usize = if i == 0 {
                    0
                } else {
                    table[i - 1][j]
                };
                let before: usize = if j == 0 {
                    0
                } else {
                    row[j - 1]
                };
                assert(above == lcs_len(a, b, i as int, j + 1));
                assert(before == lcs_len(a, b, i + 1, j as int));
                if above >= before {
                    above
                } else {
                    before
                }
            };
            assert(value == lcs_len(a, b, i + 1, j + 1));
            row.push(value);
            j += 1;
        }
        table.push(row);
        i += 1;
    }
    table
}

/// The length of the longest common subsequence of the two token
/// sequences.
pub fn lcs_length(
    left: &[u8],
    left_tokens: &Vec<Token>,
    right: &[u8],
    right_tokens: &Vec<Token>,
) -> (length: usize)
    requires
        tokens_within(left_tokens@, left.len() as int),
        tokens_within(right_tokens@, right.len() as int),
    ensures
        length == lcs_len(
            texts(left@, left_tokens@),
            texts(right@, right_tokens@),
            left_tokens.len() as int,
            right_tokens.len() as int,
        ),
{
    if left_tokens.len() == 0 || right_tokens.len() == 0 {
        return 0;
    }
    let table = lcs_table(left, left_tokens, right, right_tokens);
    table[left_tokens.len() - 1][right_tokens.len() - 1]
}

/// Aligns the two token sequences and tells, for each token of each side,
/// whether the alignment keeps it.
pub fn align_tokens(
    left: &[u8],
    left_tokens: &Vec<Token>,
    right: &[u8],
    right_tokens: &Vec<Token>,
) -> (flags: (Vec<bool>, Vec<bool>))
    requires
        tokens_within(left_tokens@, left.len() as int),
        tokens_within(right_tokens@, right.len() as int),
    ensures
        flags.0@ == left_flags(texts(left@, left_tokens@), texts(right@, right_tokens@)),
        flags.1@ == right_flags(texts(left@, left_tokens@), texts(right@, right_tokens@)),
{
    let ghost a = texts(left@, left_tokens@);
    let ghost b = texts(right@, right_tokens@);
    let rows = left_tokens.len();
    let cols = right_tokens.len();
    let table = lcs_table(left, left_tokens, right, right_tokens);
    let mut keep_left: Vec<bool> = vec![false; rows];
    let mut keep_right: Vec<bool> = vec![false; cols];
    let mut i: usize = rows;
    let mut j: usize = cols;
    while i > 0 && j > 0
        invariant
            i <= rows,
            j <= cols,
            rows == left_tokens.len(),
            cols == right_tokens.len(),
            a == texts(left@, left_tokens@),
            b == texts(right@, right_tokens@),
            tokens_within(left_tokens@, left.len() as int),
            tokens_within(right_tokens@, right.len() as int),
            table_holds(table@, a, b),
            keep_left.len() == rows,
            keep_right.len() == cols,
            forall|p: int|
                0 <= p < rows ==> (#[trigger] kept_left(a, b, rows as int, cols as int, p) <==> (
                kept_left(a, b, i as int, j as int, p) || keep_left@[p])),
            forall|q: int|
                0 <= q < cols ==> (#[trigger] kept_right(a, b, rows as int, cols as int, q) <==> (
                kept_right(a, b, i as int, j as int, q) || keep_right@[q])),
        decreases i + j,
    {
        let same = same_text(left, left_tokens[i - 1], right, right_tokens[j - 1]);
        assert(same == (a[i - 1] == b[j - 1]));
        if same {
            keep_left.set(i - 1, true);
            keep_right.set(j - 1, true);
            i -= 1;
            j -= 1;
        } else {
            let without_left: usize = if i == 1 {
                0
            } else {
                table[i - 2][j - 1]
            };
            let without_right: usize = if j == 1 {
                0
            } else {
                table[i - 1][j - 2]
            };
            assert(without_left == lcs_len(a, b, i - 1, j as int));
            assert(without_right == lcs_len(a, b, i as int, j - 1));
            if without_left >= without_right {
                i -= 1;
            } else {
                j -= 1;
            }
        }
    }
    assert(keep_left@ =~= left_flags(a, b));
    assert(keep_right@ =~= right_flags(a, b));
    (keep_left, keep_right)
}

} // verus!
