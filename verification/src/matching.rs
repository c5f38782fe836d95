//! Greedy matching of the rows of a table of scores with its columns.

use vstd::prelude::*;
use crate::score::grid;

verus! {

/// How many of the flags are not set.
pub open spec fn free_count(flags: Seq<bool>) -> nat
    decreases flags.len(),
{
    if flags.len() == 0 {
        0
    } else {
        free_count(flags.drop_last()) + if flags.last() {
            0nat
        } else {
            1nat
        }
    }
}

/// The positions of the flags that are not set, in rising order.
pub open spec fn free_indices(flags: Seq<bool>) -> Seq<usize>
    decreases flags.len(),
{
    if flags.len() == 0 {
        Seq::empty()
    } else if flags.last() {
        free_indices(flags.drop_last())
    } else {
        free_indices(flags.drop_last()).push((flags.len() - 1) as usize)
    }
}

/// Setting a flag that was not set leaves one free flag fewer.
pub proof fn lemma_claim(flags: Seq<bool>, i: int)
    requires
        0 <= i < flags.len(),
        !flags[i],
    ensures
        free_count(flags.update(i, true)) + 1 == free_count(flags),
    decreases flags.len(),
{
    let after = flags.update(i, true);
    if i == flags.len() - 1 {
        assert(after.drop_last() =~= flags.drop_last());
    } else {
        assert(after.drop_last() =~= flags.drop_last().update(i, true));
        lemma_claim(flags.drop_last(), i);
    }
}

/// Where nothing is set, every flag is free.
pub proof fn lemma_none_claimed(n: nat)
    ensures
        free_count(Seq::new(n, |i: int| false)) == n,
    decreases n,
{
    if n > 0 {
        let fewer = (n - 1) as nat;
        assert(Seq::new(n, |i: int| false).drop_last() =~= Seq::new(fewer, |i: int| false));
        lemma_none_claimed((n - 1) as nat);
    }
}

/// There are as many free positions as free flags, and each names a flag
/// that is not set.
pub proof fn lemma_free_indices(flags: Seq<bool>)
    requires
        flags.len() <= usize::MAX,
    ensures
        free_indices(flags).len() == free_count(flags),
        forall|t: int|
            0 <= t < free_indices(flags).len() ==> 0 <= (#[trigger] free_indices(flags)[t])
                < flags.len() && !flags[free_indices(flags)[t] as int],
    decreases flags.len(),
{
    if flags.len() > 0 {
        let rest = flags.drop_last();
        lemma_free_indices(rest);
        let free = free_indices(flags);
        assert forall|t: int| 0 <= t < free.len() implies 0 <= (#[trigger] free[t]) < flags.len()
            && !flags[free[t] as int] by {
            if t < free_indices(rest).len() {
                assert(free[t] == free_indices(rest)[t]);
                assert(rest[free[t] as int] == flags[free[t] as int]);
            }
        }
    }
}

/// Cell `(i, j)` can still be paired: neither its row nor its column is
/// taken, and its score is above the threshold.
pub open spec fn is_open(
    m: Seq<Seq<u32>>,
    threshold: u32,
    rows_taken: Seq<bool>,
    cols_taken: Seq<bool>,
    i: int,
    j: int,
) -> bool {
    &&& 0 <= i < m.len() && i < rows_taken.len() && !rows_taken[i]
    &&& 0 <= j < m[i].len() && j < cols_taken.len() && !cols_taken[j]
    &&& m[i][j] > threshold
}

/// Cell `(i, j)` goes before cell `(k, l)`: its score is higher, or the
/// scores are equal and it comes no later, rows first.
pub open spec fn outranks(m: Seq<Seq<u32>>, i: int, j: int, k: int, l: int) -> bool {
    m[i][j] > m[k][l] || (m[i][j] == m[k][l] && (i < k || (i == k && j <= l)))
}

/// Cell `(i, j)` is the open cell that goes before every open cell.
pub open spec fn leads(
    m: Seq<Seq<u32>>,
    threshold: u32,
    rows_taken: Seq<bool>,
    cols_taken: Seq<bool>,
    i: int,
    j: int,
) -> bool {
    &&& is_open(m, threshold, rows_taken, cols_taken, i, j)
    &&& forall|k: int, l: int| #[trigger]
        is_open(m, threshold, rows_taken, cols_taken, k, l) ==> outranks(m, i, j, k, l)
}

/// The pairs that greedy matching makes from here on: the leading cell,
/// then what greedy matching makes once its row and its column are taken;
/// none where no cell is open.
pub open spec fn greedy_from(
    m: Seq<Seq<u32>>,
    threshold: u32,
    rows_taken: Seq<bool>,
    cols_taken: Seq<bool>,
) -> Seq<(usize, usize)>
    decreases free_count(rows_taken),
{
    if exists|i: int, j: int| #[trigger] leads(m, threshold, rows_taken, cols_taken, i, j) {
        let (i, j) = choose|i: int, j: int| #[trigger]
            leads(m, threshold, rows_taken, cols_taken, i, j);
        proof {
            lemma_claim(rows_taken, i);
        }
        seq![(i as usize, j as usize)] + greedy_from(
            m,
            threshold,
            rows_taken.update(i, true),
            cols_taken.update(j, true),
        )
    } else {
        Seq::empty()
    }
}

/// The pairs that greedy matching makes of a table of scores with `cols`
/// columns: again and again the cell with the highest score above
/// `threshold` whose row and column are both still free, the first such
/// cell in reading order where several score alike.
pub open spec fn greedy_picks(m: Seq<Seq<u32>>, threshold: u32, cols: nat) -> Seq<(usize, usize)> {
    greedy_from(m, threshold, Seq::new(m.len(), |i: int| false), Seq::new(cols, |j: int| false))
}

/// Row `i` is the row of one of the picks.
pub open spec fn row_taken(picks: Seq<(usize, usize)>, i: int) -> bool {
    exists|s: int| 0 <= s < picks.len() && (#[trigger] picks[s]).0 == i
}

/// Column `j` is the column of one of the picks.
pub open spec fn col_taken(picks: Seq<(usize, usize)>, j: int) -> bool {
    exists|s: int| 0 <= s < picks.len() && (#[trigger] picks[s]).1 == j
}

/// Cell `(k, l)` comes before cell `(i, j)` in reading order.
pub open spec fn seen(i: int, j: int, k: int, l: int) -> bool {
    k < i || (k == i && l < j)
}

/// Only one cell leads.
pub proof fn lemma_one_leader(
    m: Seq<Seq<u32>>,
    threshold: u32,
    rows_taken: Seq<bool>,
    cols_taken: Seq<bool>,
    i: int,
    j: int,
    k: int,
    l: int,
)
    requires
        leads(m, threshold, rows_taken, cols_taken, i, j),
        leads(m, threshold, rows_taken, cols_taken, k, l),
    ensures
        i == k && j == l,
{
    assert(outranks(m, i, j, k, l));
    assert(outranks(m, k, l, i, j));
}

/// Every pick of greedy matching is a cell that was open, so that its
/// score is above the threshold, and no two picks share a row or a column:
/// no line is paired twice.
pub proof fn lemma_greedy_from(
    m: Seq<Seq<u32>>,
    threshold: u32,
    rows_taken: Seq<bool>,
    cols_taken: Seq<bool>,
)
    requires
        rows_taken.len() <= usize::MAX,
        cols_taken.len() <= usize::MAX,
    ensures
        forall|s: int|
            0 <= s < greedy_from(m, threshold, rows_taken, cols_taken).len() ==> is_open(
                m,
                threshold,
                rows_taken,
                cols_taken,
                (#[trigger] greedy_from(m, threshold, rows_taken, cols_taken)[s]).0 as int,
                greedy_from(m, threshold, rows_taken, cols_taken)[s].1 as int,
            ),
        forall|s: int, t: int|
            0 <= s < t < greedy_from(m, threshold, rows_taken, cols_taken).len() ==> (
            #[trigger] greedy_from(m, threshold, rows_taken, cols_taken)[s]).0 != (
            #[trigger] greedy_from(m, threshold, rows_taken, cols_taken)[t]).0 && greedy_from(
                m,
                threshold,
                rows_taken,
                cols_taken,
            )[s].1 != greedy_from(m, threshold, rows_taken, cols_taken)[t].1,
    decreases free_count(rows_taken),
{
    let picks = greedy_from(m, threshold, rows_taken, cols_taken);
    if exists|i: int, j: int| #[trigger] leads(m, threshold, rows_taken, cols_taken, i, j) {
        let (i, j) = choose|i: int, j: int| #[trigger]
            leads(m, threshold, rows_taken, cols_taken, i, j);
        let rows_after = rows_taken.update(i, true);
        let cols_after = cols_taken.update(j, true);
        let rest = greedy_from(m, threshold, rows_after, cols_after);
        lemma_claim(rows_taken, i);
        lemma_greedy_from(m, threshold, rows_after, cols_after);
        assert(picks == seq![(i as usize, j as usize)] + rest);
        assert(picks[0] == (i as usize, j as usize));
        assert forall|s: int| 1 <= s < picks.len() implies picks[s] == rest[s - 1] by {}
        assert forall|s: int| 0 <= s < picks.len() implies is_open(
            m,
            threshold,
            rows_taken,
            cols_taken,
            (#[trigger] picks[s]).0 as int,
            picks[s].1 as int,
        ) by {
            if s > 0 {
                assert(picks[s] == rest[s - 1]);
                assert(is_open(
                    m,
                    threshold,
                    rows_after,
                    cols_after,
                    rest[s - 1].0 as int,
                    rest[s - 1].1 as int,
                ));
            }
        }
        assert forall|s: int, t: int| 0 <= s < t < picks.len() implies (#[trigger] picks[s]).0 != (
        #[trigger] picks[t]).0 && picks[s].1 != picks[t].1 by {
            assert(picks[t] == rest[t - 1]);
            assert(is_open(
                m,
                threshold,
                rows_after,
                cols_after,
                rest[t - 1].0 as int,
                rest[t - 1].1 as int,
            ));
            if s > 0 {
                assert(picks[s] == rest[s - 1]);
            }
        }
    }
}

/// Cell `(a, b)` is open, comes before `(i, j)` in reading order, and goes
/// before every open cell that does.
pub open spec fn leads_among(
    m: Seq<Seq<u32>>,
    threshold: u32,
    rows_taken: Seq<bool>,
    cols_taken: Seq<bool>,
    i: int,
    j: int,
    a: int,
    b: int,
) -> bool {
    &&& is_open(m, threshold, rows_taken, cols_taken, a, b)
    &&& seen(i, j, a, b)
    &&& forall|k: int, l: int| #[trigger]
        is_open(m, threshold, rows_taken, cols_taken, k, l) && seen(i, j, k, l) ==> outranks(
            m,
            a,
            b,
            k,
            l,
        )
}

/// Where one cell leads among those before `(i, j)`, if any is open
/// there, one cell leads among those before the cell that follows `(i, j)`
/// in its row, if any is open there.
proof fn lemma_one_more(
    m: Seq<Seq<u32>>,
    threshold: u32,
    rows_taken: Seq<bool>,
    cols_taken: Seq<bool>,
    i: int,
    j: int,
    next_i: int,
    next_j: int,
)
    requires
        next_i == i,
        next_j == j + 1,
        (exists|k: int, l: int| #[trigger]
            is_open(m, threshold, rows_taken, cols_taken, k, l) && seen(i, j, k, l))
            ==> exists|a: int, b: int| #[trigger]
            leads_among(m, threshold, rows_taken, cols_taken, i, j, a, b),
    ensures
        (exists|k: int, l: int| #[trigger]
            is_open(m, threshold, rows_taken, cols_taken, k, l) && seen(next_i, next_j, k, l))
            ==> exists|a: int, b: int| #[trigger]
            leads_among(m, threshold, rows_taken, cols_taken, next_i, next_j, a, b),
{
    let here = is_open(m, threshold, rows_taken, cols_taken, i, j);
    if exists|a: int, b: int| #[trigger]
        leads_among(m, threshold, rows_taken, cols_taken, i, j, a, b) {
        let (a, b) = choose|a: int, b: int| #[trigger]
            leads_among(m, threshold, rows_taken, cols_taken, i, j, a, b);
        if here && !outranks(m, a, b, i, j) {
            assert(leads_among(m, threshold, rows_taken, cols_taken, next_i, next_j, i, j));
        } else {
            assert(leads_among(m, threshold, rows_taken, cols_taken, next_i, next_j, a, b));
        }
    } else if here {
        assert forall|k: int, l: int| #[trigger]
            is_open(m, threshold, rows_taken, cols_taken, k, l) && seen(
                next_i,
                next_j,
                k,
                l,
            ) implies outranks(m, i, j, k, l) by {
            if seen(i, j, k, l) {
                assert(is_open(m, threshold, rows_taken, cols_taken, k, l) && seen(i, j, k, l));
            }
        }
        assert(leads_among(m, threshold, rows_taken, cols_taken, next_i, next_j, i, j));
    } else {
        if exists|k: int, l: int| #[trigger]
            is_open(m, threshold, rows_taken, cols_taken, k, l) && seen(next_i, next_j, k, l) {
            let (k, l) = choose|k: int, l: int| #[trigger]
                is_open(m, threshold, rows_taken, cols_taken, k, l) && seen(
                    next_i,
                    next_j,
                    k,
                    l,
                );
            assert(is_open(m, threshold, rows_taken, cols_taken, k, l) && seen(i, j, k, l));
        }
    }
}

/// Among the cells that come before `(i, j)` in reading order, one goes
/// before all that are open, if any of them is open.
proof fn lemma_leader_among(
    m: Seq<Seq<u32>>,
    threshold: u32,
    rows_taken: Seq<bool>,
    cols_taken: Seq<bool>,
    i: int,
    j: int,
)
    requires
        0 <= i,
        0 <= j,
    ensures
        (exists|k: int, l: int| #[trigger]
            is_open(m, threshold, rows_taken, cols_taken, k, l) && seen(i, j, k, l))
            ==> exists|a: int, b: int| #[trigger]
            leads_among(m, threshold, rows_taken, cols_taken, i, j, a, b),
    decreases i, j,
{
    if j > 0 {
        lemma_leader_among(m, threshold, rows_taken, cols_taken, i, j - 1);
        lemma_one_more(m, threshold, rows_taken, cols_taken, i, j - 1, i, j);
    } else if i > 0 {
        let width = cols_taken.len() as int;
        lemma_leader_among(m, threshold, rows_taken, cols_taken, i - 1, width);
        if exists|a: int, b: int| #[trigger]
            leads_among(m, threshold, rows_taken, cols_taken, i - 1, width, a, b) {
            let (a, b) = choose|a: int, b: int| #[trigger]
                leads_among(m, threshold, rows_taken, cols_taken, i - 1, width, a, b);
            assert(leads_among(m, threshold, rows_taken, cols_taken, i, 0, a, b));
        }
    }
}

/// As long as a cell is open, a cell leads.
pub proof fn lemma_leader_exists(
    m: Seq<Seq<u32>>,
    threshold: u32,
    rows_taken: Seq<bool>,
    cols_taken: Seq<bool>,
    k: int,
    l: int,
)
    requires
        is_open(m, threshold, rows_taken, cols_taken, k, l),
    ensures
        exists|i: int, j: int| #[trigger] leads(m, threshold, rows_taken, cols_taken, i, j),
{
    let rows = rows_taken.len() as int;
    lemma_leader_among(m, threshold, rows_taken, cols_taken, rows, 0);
    assert(is_open(m, threshold, rows_taken, cols_taken, k, l) && seen(rows, 0, k, l));
    let (a, b) = choose|a: int, b: int| #[trigger]
        leads_among(m, threshold, rows_taken, cols_taken, rows, 0, a, b);
    assert forall|p: int, q: int| #[trigger]
        is_open(m, threshold, rows_taken, cols_taken, p, q) implies outranks(m, a, b, p, q) by {
        assert(seen(rows, 0, p, q));
    }
    assert(leads(m, threshold, rows_taken, cols_taken, a, b));
}

/// Greedy matching goes on until no cell is open: of every cell that was
/// open, a pick takes the row or the column.
pub proof fn lemma_greedy_exhausts(
    m: Seq<Seq<u32>>,
    threshold: u32,
    rows_taken: Seq<bool>,
    cols_taken: Seq<bool>,
    k: int,
    l: int,
)
    requires
        rows_taken.len() <= usize::MAX,
        cols_taken.len() <= usize::MAX,
        is_open(m, threshold, rows_taken, cols_taken, k, l),
    ensures
        row_taken(greedy_from(m, threshold, rows_taken, cols_taken), k) || col_taken(
            greedy_from(m, threshold, rows_taken, cols_taken),
            l,
        ),
    decreases free_count(rows_taken),
{
    let picks = greedy_from(m, threshold, rows_taken, cols_taken);
    lemma_leader_exists(m, threshold, rows_taken, cols_taken, k, l);
    let (i, j) = choose|i: int, j: int| #[trigger]
        leads(m, threshold, rows_taken, cols_taken, i, j);
    let rows_after = rows_taken.update(i, true);
    let cols_after = cols_taken.update(j, true);
    let rest = greedy_from(m, threshold, rows_after, cols_after);
    assert(picks == seq![(i as usize, j as usize)] + rest);
    assert(picks[0] == (i as usize, j as usize));
    if k == i {
        assert(row_taken(picks, k));
    } else if l == j {
        assert(col_taken(picks, l));
    } else {
        lemma_claim(rows_taken, i);
        assert(is_open(m, threshold, rows_after, cols_after, k, l));
        lemma_greedy_exhausts(m, threshold, rows_after, cols_after, k, l);
        if row_taken(rest, k) {
            let s = choose|s: int| 0 <= s < rest.len() && (#[trigger] rest[s]).0 == k;
            assert(picks[s + 1] == rest[s]);
        } else {
            let s = choose|s: int| 0 <= s < rest.len() && (#[trigger] rest[s]).1 == l;
            assert(picks[s + 1] == rest[s]);
        }
    }
}

/// The leading cell, if any cell is open.
fn find_leader(
    scores: &Vec<Vec<u32>>,
    threshold: u32,
    rows_taken: &Vec<bool>,
    cols_taken: &Vec<bool>,
) -> (leader: Option<(usize, usize)>)
    requires
        rows_taken.len() == scores.len(),
    ensures
        match leader {
            Some((i, j)) => leads(
                grid(scores@),
                threshold,
                rows_taken@,
                cols_taken@,
                i as int,
                j as int,
            ),
            None => forall|k: int, l: int|
                !#[trigger] is_open(grid(scores@), threshold, rows_taken@, cols_taken@, k, l),
        },
{
    let ghost m = grid(scores@);
    let rows = scores.len();
    let cols = cols_taken.len();
    let mut found = false;
    let mut best_row: usize = 0;
    let mut best_col: usize = 0;
    let mut best: u32 = 0;
    let mut i: usize = 0;
    while i < rows
        invariant
            i <= rows,
            rows == scores.len(),
            cols == cols_taken.len(),
            rows_taken.len() == rows,
            m == grid(scores@),
            found ==> is_open(
                m,
                threshold,
                rows_taken@,
                cols_taken@,
                best_row as int,
                best_col as int,
            )
                && best == m[best_row as int][best_col as int] && seen(
                i as int,
                0,
                best_row as int,
                best_col as int,
            ),
            forall|k: int, l: int| #[trigger]
                is_open(m, threshold, rows_taken@, cols_taken@, k, l) && seen(i as int, 0, k, l)
                    ==> found && outranks(m, best_row as int, best_col as int, k, l),
        decreases rows - i,
    {
        if !rows_taken[i] {
            let width = if scores[i].len() < cols {
                scores[i].len()
            } else {
                cols
            };
            let mut j: usize = 0;
            while j < width
                invariant
                    i < rows,
                    j <= width,
                    !rows_taken@[i as int],
                    rows == scores.len(),
                    cols == cols_taken.len(),
                    rows_taken.len() == rows,
                    width <= cols,
                    width <= scores@[i as int].len(),
                    width == cols || width == scores@[i as int].len(),
                    m == grid(scores@),
                    found ==> is_open(
                        m,
                        threshold,
                        rows_taken@,
                        cols_taken@,
                        best_row as int,
                        best_col as int,
                    ) && best == m[best_row as int][best_col as int] && seen(
                        i as int,
                        j as int,
                        best_row as int,
                        best_col as int,
                    ),
                    forall|k: int, l: int| #[trigger]
                        is_open(m, threshold, rows_taken@, cols_taken@, k, l) && seen(
                            i as int,
                            j as int,
                            k,
                            l,
                        ) ==> found && outranks(m, best_row as int, best_col as int, k, l),
                decreases width - j,
            {
                let score = scores[i][j];
                assert(score == m[i as int][j as int]);
                if !cols_taken[j] && score > threshold && (!found || score > best) {
                    found = true;
                    best_row = i;
                    best_col = j;
                    best = score;
                }
                j += 1;
            }
        }
        i += 1;
    }
    if found {
        Some((best_row, best_col))
    } else {
        None
    }
}

/// What greedy matching leaves behind: the picks, and which rows and
/// columns they take.
pub struct Selection {
    pub picks: Vec<(usize, usize)>,
    pub rows_taken: Vec<bool>,
    pub cols_taken: Vec<bool>,
}

impl Selection {
    /// The picks are those of greedy matching, no two of them share a row
    /// or a column, and the flags tell which rows and columns they take.
    pub open spec fn settled(self, m: Seq<Seq<u32>>, threshold: u32, cols: nat) -> bool {
        &&& self.picks@ == greedy_picks(m, threshold, cols)
        &&& self.rows_taken.len() == m.len()
        &&& self.cols_taken.len() == cols
        &&& self.picks.len() + free_count(self.rows_taken@) == m.len()
        &&& self.picks.len() + free_count(self.cols_taken@) == cols
        &&& forall|i: int|
            0 <= i < m.len() ==> (#[trigger] self.rows_taken@[i] <==> row_taken(self.picks@, i))
        &&& forall|j: int|
            0 <= j < cols ==> (#[trigger] self.cols_taken@[j] <==> col_taken(self.picks@, j))
        &&& forall|s: int|
            0 <= s < self.picks.len() ==> (#[trigger] self.picks@[s]).0 < m.len()
                && self.picks@[s].1 < cols && self.picks@[s].1 < m[self.picks@[s].0 as int].len()
                && m[self.picks@[s].0 as int][self.picks@[s].1 as int] > threshold
        &&& forall|s: int, t: int|
            0 <= s < t < self.picks.len() ==> (#[trigger] self.picks@[s]).0
                != (#[trigger] self.picks@[t]).0 && self.picks@[s].1 != self.picks@[t].1
        &&& forall|k: int, l: int|
            !#[trigger] is_open(m, threshold, self.rows_taken@, self.cols_taken@, k, l)
    }
}

/// Matches rows to columns greedily: picks the leading cell, takes its row
/// and its column out, and goes on until no cell is open.
pub fn select_pairs(scores: &Vec<Vec<u32>>, cols: usize, threshold: u32) -> (selection: Selection)
    ensures
        selection.settled(grid(scores@), threshold, cols as nat),
{
    let ghost m = grid(scores@);
    let rows = scores.len();
    let mut picks: Vec<(usize, usize)> = Vec::new();
    let mut rows_taken: Vec<bool> = vec![false; rows];
    let mut cols_taken: Vec<bool> = vec![false; cols];
    proof {
        assert(rows_taken@ =~= Seq::new(rows as nat, |i: int| false));
        assert(cols_taken@ =~= Seq::new(cols as nat, |j: int| false));
        lemma_none_claimed(rows as nat);
        lemma_none_claimed(cols as nat);
        assert(picks@ + greedy_from(m, threshold, rows_taken@, cols_taken@) =~= greedy_picks(
            m,
            threshold,
            cols as nat,
        ));
    }
    loop
        invariant_except_break
            rows == scores.len(),
            m == grid(scores@),
            rows_taken.len() == rows,
            cols_taken.len() == cols,
            greedy_picks(m, threshold, cols as nat) == picks@ + greedy_from(
                m,
                threshold,
                rows_taken@,
                cols_taken@,
            ),
            picks.len() + free_count(rows_taken@) == rows,
            picks.len() + free_count(cols_taken@) == cols,
            forall|i: int|
                0 <= i < rows ==> (#[trigger] rows_taken@[i] <==> row_taken(picks@, i)),
            forall|j: int|
                0 <= j < cols ==> (#[trigger] cols_taken@[j] <==> col_taken(picks@, j)),
            forall|s: int|
                0 <= s < picks.len() ==> (#[trigger] picks@[s]).0 < rows && picks@[s].1 < cols
                    && picks@[s].1 < m[picks@[s].0 as int].len()
                    && m[picks@[s].0 as int][picks@[s].1 as int] > threshold,
            forall|s: int, t: int|
                0 <= s < t < picks.len() ==> (#[trigger] picks@[s]).0 != (#[trigger] picks@[t]).0
                    && picks@[s].1 != picks@[t].1,
        ensures
            (Selection { picks, rows_taken, cols_taken }).settled(m, threshold, cols as nat),
        decreases free_count(rows_taken@),
    {
        let leader = find_leader(scores, threshold, &rows_taken, &cols_taken);
        match leader {
            None => {
                proof {
                    assert(!(exists|i: int, j: int| #[trigger]
                        leads(m, threshold, rows_taken@, cols_taken@, i, j)));
                    assert(greedy_from(m, threshold, rows_taken@, cols_taken@) =~= Seq::empty());
                    assert(picks@ + Seq::<(usize, usize)>::empty() =~= picks@);
                }
                break ;
            },
            Some((i, j)) => {
                let ghost old_picks = picks@;
                let ghost old_rows = rows_taken@;
                let ghost old_cols = cols_taken@;
                proof {
                    let (ci, cj) = choose|ci: int, cj: int| #[trigger]
                        leads(m, threshold, old_rows, old_cols, ci, cj);
                    lemma_one_leader(m, threshold, old_rows, old_cols, i as int, j as int, ci, cj);
                    lemma_claim(old_rows, i as int);
                    lemma_claim(old_cols, j as int);
                }
                picks.push((i, j));
                rows_taken.set(i, true);
                cols_taken.set(j, true);
                proof {
                    let rest = greedy_from(m, threshold, rows_taken@, cols_taken@);
                    assert(greedy_from(m, threshold, old_rows, old_cols) == seq![(i, j)] + rest);
                    assert(old_picks + (seq![(i, j)] + rest) =~= picks@ + rest);
                    let last = old_picks.len() as int;
                    assert(picks@[last] == (i, j));
                    assert forall|s: int| 0 <= s < last implies picks@[s] == old_picks[s] by {}
                    assert forall|r: int| 0 <= r < rows implies (#[trigger] rows_taken@[r]
                        <==> row_taken(picks@, r)) by {
                        if row_taken(old_picks, r) {
                            let s = choose|s: int|
                                0 <= s < old_picks.len() && (#[trigger] old_picks[s]).0 == r;
                            assert(picks@[s].0 == r);
                        }
                        if row_taken(picks@, r) && r != i {
                            let s = choose|s: int|
                                0 <= s < picks.len() && (#[trigger] picks@[s]).0 == r;
                            assert(old_picks[s].0 == r);
                        }
                    }
                    assert forall|c: int| 0 <= c < cols implies (#[trigger] cols_taken@[c]
                        <==> col_taken(picks@, c)) by {
                        if col_taken(old_picks, c) {
                            let s = choose|s: int|
                                0 <= s < old_picks.len() && (#[trigger] old_picks[s]).1 == c;
                            assert(picks@[s].1 == c);
                        }
                        if col_taken(picks@, c) && c != j {
                            let s = choose|s: int|
                                0 <= s < picks.len() && (#[trigger] picks@[s]).1 == c;
                            assert(old_picks[s].1 == c);
                        }
                    }
                    assert forall|s: int, t: int| 0 <= s < t < picks.len() implies (
                    #[trigger] picks@[s]).0 != (#[trigger] picks@[t]).0 && picks@[s].1
                        != picks@[t].1 by {
                        if t == last {
                            assert(old_picks[s].0 < rows && old_picks[s].1 < cols);
                            assert(old_rows[old_picks[s].0 as int] <==> row_taken(
                                old_picks,
                                old_picks[s].0 as int,
                            ));
                            assert(old_cols[old_picks[s].1 as int] <==> col_taken(
                                old_picks,
                                old_picks[s].1 as int,
                            ));
                        } else {
                            assert(picks@[s] == old_picks[s] && picks@[t] == old_picks[t]);
                        }
                    }
                }
            },
        }
    }
    Selection { picks, rows_taken, cols_taken }
}

} // verus!
