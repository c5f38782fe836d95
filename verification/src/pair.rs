//! Pairing the removed lines of a hunk with its added lines, by how much
//! alike they are.

use vstd::prelude::*;
use crate::config::Config;
use crate::score::{
    grid, lemma_score_bounded, line_texts, score_grid, score_lines, score_of, FULL_SCORE,
};
use crate::matching::{
    col_taken, free_count, free_indices, greedy_picks, is_open, row_taken, select_pairs,
};

verus! {

/// A removed line and the added line that it became, or a line of either
/// side that goes with no other. There is no pair without a line.
#[derive(Clone, Copy, Debug, PartialEq, Eq)]
pub enum Pair {
    Matched { removed: usize, added: usize, score: u32 },
    RemovedOnly { removed: usize },
    AddedOnly { added: usize },
}

impl Pair {
    /// The removed line of the pair, if it has one.
    pub open spec fn removed_side(self) -> Option<usize> {
        match self {
            Pair::Matched { removed, .. } => Some(removed),
            Pair::RemovedOnly { removed } => Some(removed),
            Pair::AddedOnly { .. } => None,
        }
    }

    /// The added line of the pair, if it has one.
    pub open spec fn added_side(self) -> Option<usize> {
        match self {
            Pair::Matched { added, .. } => Some(added),
            Pair::RemovedOnly { .. } => None,
            Pair::AddedOnly { added } => Some(added),
        }
    }
}

/// Some pair holds removed line `i`.
pub open spec fn holds_removed(pairs: Seq<Pair>, i: int) -> bool {
    exists|p: int| 0 <= p < pairs.len() && (#[trigger] pairs[p]).removed_side() == Some(i as usize)
}

/// Some pair holds added line `j`.
pub open spec fn holds_added(pairs: Seq<Pair>, j: int) -> bool {
    exists|p: int| 0 <= p < pairs.len() && (#[trigger] pairs[p]).added_side() == Some(j as usize)
}

/// The line of a pair of one line.
pub open spec fn lone_index(pair: Pair) -> usize {
    match pair {
        Pair::Matched { removed, .. } => removed,
        Pair::RemovedOnly { removed } => removed,
        Pair::AddedOnly { added } => added,
    }
}

/// The pair of a line that goes with no other.
pub open spec fn lone(removed: bool, index: usize) -> Pair {
    if removed {
        Pair::RemovedOnly { removed: index }
    } else {
        Pair::AddedOnly { added: index }
    }
}

/// The pairs of the lines that go with no other.
pub open spec fn lone_pairs(free: Seq<usize>, removed: bool) -> Seq<Pair> {
    Seq::new(free.len(), |t: int| lone(removed, free[t]))
}

/// The pairs that the picks stand for, each with its score.
pub open spec fn matched_pairs(m: Seq<Seq<u32>>, picks: Seq<(usize, usize)>) -> Seq<Pair> {
    Seq::new(
        picks.len(),
        |s: int|
            Pair::Matched {
                removed: picks[s].0,
                added: picks[s].1,
                score: m[picks[s].0 as int][picks[s].1 as int],
            },
    )
}

/// For each of `rows` rows, whether a pick takes it.
pub open spec fn rows_flags(picks: Seq<(usize, usize)>, rows: nat) -> Seq<bool> {
    Seq::new(rows, |i: int| row_taken(picks, i))
}

/// For each of `cols` columns, whether a pick takes it.
pub open spec fn cols_flags(picks: Seq<(usize, usize)>, cols: nat) -> Seq<bool> {
    Seq::new(cols, |j: int| col_taken(picks, j))
}

/// The pairs of a table of scores: first the matched pairs, in the order
/// in which greedy matching picks them; then the removed lines that are
/// left, in their order; then the added lines that are left, in theirs.
pub open spec fn pairs_of(m: Seq<Seq<u32>>, threshold: u32, cols: nat) -> Seq<Pair> {
    let picks = greedy_picks(m, threshold, cols);
    matched_pairs(m, picks) + lone_pairs(free_indices(rows_flags(picks, m.len())), true)
        + lone_pairs(free_indices(cols_flags(picks, cols)), false)
}

/// The pairs of the removed and the added lines of a hunk.
pub open spec fn pairs_of_lines(removed: Seq<Seq<u8>>, added: Seq<Seq<u8>>, config: Config) -> Seq<
    Pair,
> {
    pairs_of(
        score_grid(removed, added, config.max_line_length_for_diffing as int),
        config.minimum_pairing_similarity,
        added.len(),
    )
}

/// The pairs of a hunk, and for each line the place of its pair among
/// them.
#[derive(Debug)]
pub struct Pairing {
    pub pairs: Vec<Pair>,
    /// For each removed line, the index in `pairs` of the pair it is in.
    pub of_removed: Vec<usize>,
    /// For each added line, the index in `pairs` of the pair it is in.
    pub of_added: Vec<usize>,
    /// How many of the pairs are matched ones. They come first.
    pub matched: usize,
}

impl Pairing {
    /// The pairing is one of `rows` removed and `cols` added lines: each
    /// line is in the pair that its entry names and in no other; the
    /// matched pairs come first, then the removed lines that are left,
    /// then the added ones.
    pub open spec fn well_formed(self, rows: nat, cols: nat) -> bool {
        &&& self.of_removed.len() == rows
        &&& self.of_added.len() == cols
        &&& self.matched <= rows
        &&& self.matched <= cols
        &&& self.pairs.len() == rows + cols - self.matched
        &&& forall|p: int|
            0 <= p < self.pairs.len() ==> match #[trigger] self.pairs@[p] {
                Pair::Matched { removed, added, score } => p < self.matched && removed < rows
                    && added < cols && self.of_removed@[removed as int] == p
                    && self.of_added@[added as int] == p,
                Pair::RemovedOnly { removed } => self.matched <= p < rows && removed < rows
                    && self.of_removed@[removed as int] == p,
                Pair::AddedOnly { added } => rows <= p && added < cols
                    && self.of_added@[added as int] == p,
            }
        &&& forall|i: int|
            0 <= i < rows ==> 0 <= #[trigger] self.of_removed@[i] < self.pairs.len()
                && self.pairs@[self.of_removed@[i] as int].removed_side() == Some(i as usize)
        &&& forall|j: int|
            0 <= j < cols ==> 0 <= #[trigger] self.of_added@[j] < self.pairs.len()
                && self.pairs@[self.of_added@[j] as int].added_side() == Some(j as usize)
    }
}

/// Every line of either side is in one pair and in no other. There are as
/// many pairs as lines, less the matched pairs: no fewer than the longer
/// side has lines, that many where one side is empty, and fewer than
/// there are lines as soon as two lines are matched.
pub proof fn lemma_pairing_total(pairing: Pairing, rows: nat, cols: nat)
    requires
        pairing.well_formed(rows, cols),
    ensures
        forall|i: int| 0 <= i < rows ==> #[trigger] holds_removed(pairing.pairs@, i),
        forall|j: int| 0 <= j < cols ==> #[trigger] holds_added(pairing.pairs@, j),
        forall|p: int, q: int|
            0 <= p < pairing.pairs.len() && 0 <= q < pairing.pairs.len() && (
            #[trigger] pairing.pairs@[p]).removed_side() == (
            #[trigger] pairing.pairs@[q]).removed_side() && pairing.pairs@[p].removed_side()
                is Some ==> p == q,
        forall|p: int, q: int|
            0 <= p < pairing.pairs.len() && 0 <= q < pairing.pairs.len() && (
            #[trigger] pairing.pairs@[p]).added_side() == (
            #[trigger] pairing.pairs@[q]).added_side() && pairing.pairs@[p].added_side()
                is Some ==> p == q,
        pairing.pairs.len() == rows + cols - pairing.matched,
        pairing.pairs.len() >= rows,
        pairing.pairs.len() >= cols,
        rows == 0 ==> pairing.matched == 0 && pairing.pairs.len() == cols,
        cols == 0 ==> pairing.matched == 0 && pairing.pairs.len() == rows,
        pairing.matched > 0 ==> pairing.pairs.len() < rows + cols,
{
    let pairs = pairing.pairs@;
    assert forall|i: int| 0 <= i < rows implies #[trigger] holds_removed(pairs, i) by {
        let p = pairing.of_removed@[i] as int;
        assert(pairs[p].removed_side() == Some(i as usize));
    }
    assert forall|j: int| 0 <= j < cols implies #[trigger] holds_added(pairs, j) by {
        let p = pairing.of_added@[j] as int;
        assert(pairs[p].added_side() == Some(j as usize));
    }
}

/// Adds a pair for each line that no pick takes, and notes for each such
/// line where its pair stands.
fn append_lone(pairs: &mut Vec<Pair>, slots: &mut Vec<usize>, taken: &Vec<bool>, removed: bool)
    requires
        old(slots).len() == taken.len(),
    ensures
        final(pairs)@ == old(pairs)@ + lone_pairs(free_indices(taken@), removed),
        final(pairs).len() == old(pairs).len() + free_count(taken@),
        final(slots).len() == old(slots).len(),
        forall|i: int|
            0 <= i < taken.len() && taken@[i] ==> #[trigger] final(slots)@[i] == old(slots)@[i],
        forall|i: int|
            0 <= i < taken.len() && !taken@[i] ==> old(pairs).len() <= #[trigger] final(slots)@[i]
                < final(pairs).len() && final(pairs)@[final(slots)@[i] as int] == lone(
                removed,
                i as usize,
            ),
        forall|p: int|
            old(pairs).len() <= p < final(pairs).len() ==> #[trigger] final(pairs)@[p] == lone(
                removed,
                lone_index(final(pairs)@[p]),
            ) && lone_index(final(pairs)@[p]) < taken.len() && !taken@[lone_index(
                final(pairs)@[p],
            ) as int] && final(slots)@[lone_index(final(pairs)@[p]) as int] == p,
{
    let ghost before = pairs@;
    let mut i: usize = 0;
    proof {
        assert(taken@.take(0) =~= Seq::empty());
        assert(pairs@ =~= before + lone_pairs(free_indices(taken@.take(0)), removed));
    }
    while i < taken.len()
        invariant
            i <= taken.len(),
            slots.len() == taken.len(),
            slots.len() == old(slots).len(),
            before == old(pairs)@,
            pairs@ == before + lone_pairs(free_indices(taken@.take(i as int)), removed),
            pairs.len() == before.len() + free_count(taken@.take(i as int)),
            free_count(taken@.take(i as int)) <= i,
            forall|k: int| 0 <= k < taken.len() && (taken@[k] || k >= i) ==> #[trigger] slots@[k]
                == old(slots)@[k],
            forall|k: int|
                0 <= k < i && !taken@[k] ==> before.len() <= #[trigger] slots@[k] < pairs.len()
                    && pairs@[slots@[k] as int] == lone(removed, k as usize),
            forall|p: int|
                before.len() <= p < pairs.len() ==> #[trigger] pairs@[p] == lone(
                    removed,
                    lone_index(pairs@[p]),
                ) && lone_index(pairs@[p]) < i && !taken@[lone_index(pairs@[p]) as int]
                    && slots@[lone_index(pairs@[p]) as int] == p,
        decreases taken.len() - i,
    {
        let ghost seen_pairs = pairs@;
        let ghost seen_slots = slots@;
        proof {
            assert(taken@.take(i + 1).drop_last() =~= taken@.take(i as int));
            assert(taken@.take(i + 1).last() == taken@[i as int]);
        }
        if !taken[i] {
            let place = pairs.len();
            slots.set(i, place);
            let pair = if removed {
                Pair::RemovedOnly { removed: i }
            } else {
                Pair::AddedOnly { added: i }
            };
            pairs.push(pair);
            proof {
                assert(pairs@ =~= before + lone_pairs(
                    free_indices(taken@.take(i + 1)),
                    removed,
                ));
                assert forall|p: int| before.len() <= p < pairs.len() implies #[trigger] pairs@[p]
                    == lone(removed, lone_index(pairs@[p])) && lone_index(pairs@[p]) < i + 1
                    && !taken@[lone_index(pairs@[p]) as int] && slots@[lone_index(
                    pairs@[p],
                ) as int] == p by {
                    if p < place {
                        assert(pairs@[p] == seen_pairs[p]);
                    } else {
                        assert(pairs@[p] == lone(removed, i as usize));
                    }
                }
            }
        }
        i += 1;
    }
    assert(taken@.take(i as int) =~= taken@);
}

/// Pairs rows with columns by a table of scores: greedy matching first,
/// then a pair for each line that is left.
pub fn pair_scores(scores: &Vec<Vec<u32>>, cols: usize, threshold: u32) -> (pairing: Pairing)
    ensures
        pairing.pairs@ == pairs_of(grid(scores@), threshold, cols as nat),
        pairing.matched == greedy_picks(grid(scores@), threshold, cols as nat).len(),
        pairing.well_formed(scores.len() as nat, cols as nat),
        forall|p: int|
            0 <= p < pairing.pairs.len() ==> match #[trigger] pairing.pairs@[p] {
                Pair::Matched { removed, added, score } => removed < scores.len() && added
                    < scores@[removed as int].len() && score
                    == scores@[removed as int]@[added as int] && score > threshold,
                _ => true,
            },
        forall|p: int, q: int|
            0 <= p < pairing.pairs.len() && 0 <= q < pairing.pairs.len() ==> match (
                #[trigger] pairing.pairs@[p],
                #[trigger] pairing.pairs@[q],
            ) {
                (Pair::RemovedOnly { removed }, Pair::AddedOnly { added }) => added
                    < scores@[removed as int].len() ==> scores@[removed as int]@[added as int]
                    <= threshold,
                _ => true,
            },
{
    let ghost m = grid(scores@);
    let rows = scores.len();
    let selection = select_pairs(scores, cols, threshold);
    let matched = selection.picks.len();
    let ghost picks = selection.picks@;
    let mut pairs: Vec<Pair> = Vec::new();
    let mut of_removed: Vec<usize> = vec![0; rows];
    let mut of_added: Vec<usize> = vec![0; cols];
    let mut s: usize = 0;
    while s < matched
        invariant
            s <= matched,
            matched == selection.picks.len(),
            picks == selection.picks@,
            rows == scores.len(),
            m == grid(scores@),
            selection.settled(m, threshold, cols as nat),
            of_removed.len() == rows,
            of_added.len() == cols,
            pairs@ == matched_pairs(m, picks.take(s as int)),
            forall|t: int|
                0 <= t < s ==> of_removed@[(#[trigger] picks[t]).0 as int] == t
                    && of_added@[picks[t].1 as int] == t,
        decreases matched - s,
    {
        let (removed, added) = selection.picks[s];
        assert(picks[s as int] == (removed, added));
        let score = scores[removed][added];
        pairs.push(Pair::Matched { removed, added, score });
        of_removed.set(removed, s);
        of_added.set(added, s);
        proof {
            assert(pairs@ =~= matched_pairs(m, picks.take(s + 1)));
            assert forall|t: int| 0 <= t < s + 1 implies of_removed@[(#[trigger] picks[t]).0 as int]
                == t && of_added@[picks[t].1 as int] == t by {
                if t < s {
                    assert(picks[t].0 != picks[s as int].0 && picks[t].1 != picks[s as int].1);
                }
            }
        }
        s += 1;
    }
    proof {
        assert(picks.take(matched as int) =~= picks);
        assert(selection.rows_taken@ =~= rows_flags(picks, rows as nat));
        assert(selection.cols_taken@ =~= cols_flags(picks, cols as nat));
    }
    let ghost matched_part = pairs@;
    let ghost slots_r = of_removed@;
    let ghost slots_a = of_added@;
    append_lone(&mut pairs, &mut of_removed, &selection.rows_taken, true);
    let ghost with_removed = pairs@;
    append_lone(&mut pairs, &mut of_added, &selection.cols_taken, false);
    let pairing = Pairing { pairs, of_removed, of_added, matched };
    proof {
        let all = pairing.pairs@;
        assert(all.len() == rows + cols - matched);
        assert forall|p: int| 0 <= p < with_removed.len() implies all[p] == with_removed[p] by {}
        assert forall|p: int| 0 <= p < matched implies with_removed[p] == matched_part[p] by {}
        assert forall|p: int| 0 <= p < all.len() implies match #[trigger] all[p] {
            Pair::Matched { removed, added, score } => p < matched && removed < rows && added < cols
                && pairing.of_removed@[removed as int] == p && pairing.of_added@[added as int]
                == p,
            Pair::RemovedOnly { removed } => matched <= p < rows && removed < rows
                && pairing.of_removed@[removed as int] == p,
            Pair::AddedOnly { added } => rows <= p && added < cols
                && pairing.of_added@[added as int] == p,
        } by {
            if p < matched {
                assert(all[p] == matched_part[p]);
                assert(picks[p].0 < rows && picks[p].1 < m[picks[p].0 as int].len());
                assert(selection.rows_taken@[picks[p].0 as int] <==> row_taken(
                    picks,
                    picks[p].0 as int,
                ));
                assert(selection.cols_taken@[picks[p].1 as int] <==> col_taken(
                    picks,
                    picks[p].1 as int,
                ));
            } else if p < rows {
                assert(all[p] == with_removed[p]);
            } else {
            }
        }
        assert forall|p: int| 0 <= p < all.len() implies match #[trigger] all[p] {
            Pair::Matched { removed, added, score } => removed < scores.len() && added
                < scores@[removed as int].len() && score == scores@[removed as int]@[added as int]
                && score > threshold,
            _ => true,
        } by {
            if p < matched {
                assert(all[p] == matched_part[p]);
                assert(picks[p].0 < rows && picks[p].1 < m[picks[p].0 as int].len());
            }
        }
        assert forall|p: int, q: int| 0 <= p < all.len() && 0 <= q < all.len() implies match (
            #[trigger] all[p],
            #[trigger] all[q],
        ) {
            (Pair::RemovedOnly { removed }, Pair::AddedOnly { added }) => added
                < scores@[removed as int].len() ==> scores@[removed as int]@[added as int]
                <= threshold,
            _ => true,
        } by {
            match (all[p], all[q]) {
                (Pair::RemovedOnly { removed }, Pair::AddedOnly { added }) => {
                    assert(all[p] == with_removed[p]);
                    assert(!selection.rows_taken@[removed as int]);
                    assert(!selection.cols_taken@[added as int]);
                    assert(!is_open(
                        m,
                        threshold,
                        selection.rows_taken@,
                        selection.cols_taken@,
                        removed as int,
                        added as int,
                    ));
                },
                _ => {},
            }
        }
        assert forall|i: int| 0 <= i < rows implies 0 <= #[trigger] pairing.of_removed@[i]
            < all.len() && all[pairing.of_removed@[i] as int].removed_side() == Some(
            i as usize,
        ) by {
            if selection.rows_taken@[i] {
                assert(row_taken(picks, i));
                let t = choose|t: int| 0 <= t < picks.len() && (#[trigger] picks[t]).0 == i;
                assert(pairing.of_removed@[i] == t);
                assert(all[t] == matched_part[t]);
            } else {
                let place = pairing.of_removed@[i] as int;
                assert(all[place] == with_removed[place]);
            }
        }
        assert forall|j: int| 0 <= j < cols implies 0 <= #[trigger] pairing.of_added@[j]
            < all.len() && all[pairing.of_added@[j] as int].added_side() == Some(j as usize) by {
            if selection.cols_taken@[j] {
                assert(col_taken(picks, j));
                let t = choose|t: int| 0 <= t < picks.len() && (#[trigger] picks[t]).1 == j;
                assert(pairing.of_added@[j] == t);
                assert(all[t] == matched_part[t]);
            }
        }
    }
    pairing
}

/// Pairs the removed lines of a hunk with its added lines. Every removed
/// line is scored against every added line; greedy matching then pairs,
/// again and again, the two free lines that are most alike, as long as
/// their score is above the least similarity that `config` asks for.
/// Lines that are left go with no other. A line longer than `config`
/// allows for diffing is always left.
pub fn pair_lines(removed: &Vec<Vec<u8>>, added: &Vec<Vec<u8>>, config: &Config) -> (pairing:
    Pairing)
    ensures
        pairing.pairs@ == pairs_of_lines(line_texts(removed@), line_texts(added@), *config),
        pairing.well_formed(removed.len() as nat, added.len() as nat),
        forall|p: int|
            0 <= p < pairing.pairs.len() ==> match #[trigger] pairing.pairs@[p] {
                Pair::Matched { removed: i, added: j, score } => score
                    > config.minimum_pairing_similarity && score <= FULL_SCORE && score
                    == score_of(
                    removed@[i as int]@,
                    added@[j as int]@,
                    config.max_line_length_for_diffing as int,
                ) && removed@[i as int].len() <= config.max_line_length_for_diffing
                    && added@[j as int].len() <= config.max_line_length_for_diffing,
                _ => true,
            },
        forall|p: int, q: int|
            0 <= p < pairing.pairs.len() && 0 <= q < pairing.pairs.len() ==> match (
                #[trigger] pairing.pairs@[p],
                #[trigger] pairing.pairs@[q],
            ) {
                (Pair::RemovedOnly { removed: i }, Pair::AddedOnly { added: j }) => score_of(
                    removed@[i as int]@,
                    added@[j as int]@,
                    config.max_line_length_for_diffing as int,
                ) <= config.minimum_pairing_similarity,
                _ => true,
            },
{
    let scores = score_lines(removed, added, config.max_line_length_for_diffing);
    assert(grid(scores@).len() == removed.len());
    let pairing = pair_scores(&scores, added.len(), config.minimum_pairing_similarity);
    proof {
        let m = grid(scores@);
        let picks = greedy_picks(m, config.minimum_pairing_similarity, added.len() as nat);
        assert forall|p: int|
            0 <= p < pairing.pairs.len() implies match #[trigger] pairing.pairs@[p] {
            Pair::Matched { removed: i, added: j, score } => score
                > config.minimum_pairing_similarity && score <= FULL_SCORE && score == score_of(
                removed@[i as int]@,
                added@[j as int]@,
                config.max_line_length_for_diffing as int,
            ) && removed@[i as int].len() <= config.max_line_length_for_diffing
                && added@[j as int].len() <= config.max_line_length_for_diffing,
            _ => true,
        } by {
            match pairing.pairs@[p] {
                Pair::Matched { removed: i, added: j, score } => {
                    assert(score == m[i as int][j as int]);
                    lemma_score_bounded(
                        removed@[i as int]@,
                        added@[j as int]@,
                        config.max_line_length_for_diffing as int,
                    );
                },
                _ => {},
            }
        }
        assert forall|p: int, q: int|
            0 <= p < pairing.pairs.len() && 0 <= q < pairing.pairs.len() implies match (
            #[trigger] pairing.pairs@[p],
            #[trigger] pairing.pairs@[q],
        ) {
            (Pair::RemovedOnly { removed: i }, Pair::AddedOnly { added: j }) => score_of(
                removed@[i as int]@,
                added@[j as int]@,
                config.max_line_length_for_diffing as int,
            ) <= config.minimum_pairing_similarity,
            _ => true,
        } by {
            match (pairing.pairs@[p], pairing.pairs@[q]) {
                (Pair::RemovedOnly { removed: i }, Pair::AddedOnly { added: j }) => {
                    assert(m[i as int].len() == added.len());
                    assert(scores@[i as int]@[j as int] == m[i as int][j as int]);
                    lemma_score_bounded(
                        removed@[i as int]@,
                        added@[j as int]@,
                        config.max_line_length_for_diffing as int,
                    );
                },
                _ => {},
            }
        }
    }
    pairing
}

/// `pair` matches removed line `i` with an added line.
pub open spec fn matches_removed(pair: Pair, i: int) -> bool {
    pair matches Pair::Matched { removed, .. } && removed == i
}

/// `pair` matches added line `j` with a removed line.
pub open spec fn matches_added(pair: Pair, j: int) -> bool {
    pair matches Pair::Matched { added, .. } && added == j
}

/// The added line that removed line `i` is matched with, if it is matched.
pub open spec fn added_partner(pairs: Seq<Pair>, i: int) -> Option<usize> {
    if exists|p: int| 0 <= p < pairs.len() && matches_removed(#[trigger] pairs[p], i) {
        let p = choose|p: int| 0 <= p < pairs.len() && matches_removed(#[trigger] pairs[p], i);
        pairs[p].added_side()
    } else {
        None
    }
}

/// The removed line that added line `j` is matched with, if it is
/// matched.
pub open spec fn removed_partner(pairs: Seq<Pair>, j: int) -> Option<usize> {
    if exists|p: int| 0 <= p < pairs.len() && matches_added(#[trigger] pairs[p], j) {
        let p = choose|p: int| 0 <= p < pairs.len() && matches_added(#[trigger] pairs[p], j);
        pairs[p].removed_side()
    } else {
        None
    }
}

/// In a pairing, to be matched is mutual: a removed line is matched with
/// an added line exactly if that added line is matched with it.
pub proof fn lemma_partners_agree(pairing: Pairing, i: int, j: int)
    requires
        pairing.sound(),
        0 <= i < pairing.of_removed.len(),
        0 <= j < pairing.of_added.len(),
    ensures
        added_partner(pairing.pairs@, i) == Some(j as usize) <==> removed_partner(
            pairing.pairs@,
            j,
        ) == Some(i as usize),
{
    let pairs = pairing.pairs@;
    if added_partner(pairs, i) == Some(j as usize) {
        let p = choose|p: int| 0 <= p < pairs.len() && matches_removed(#[trigger] pairs[p], i);
        assert(matches_added(pairs[p], j));
        let q = choose|q: int| 0 <= q < pairs.len() && matches_added(#[trigger] pairs[q], j);
        assert(pairing.of_added@[j] == q && pairing.of_added@[j] == p);
    }
    if removed_partner(pairs, j) == Some(i as usize) {
        let q = choose|q: int| 0 <= q < pairs.len() && matches_added(#[trigger] pairs[q], j);
        assert(matches_removed(pairs[q], i));
        let p = choose|p: int| 0 <= p < pairs.len() && matches_removed(#[trigger] pairs[p], i);
        assert(pairing.of_removed@[i] == p && pairing.of_removed@[i] == q);
    }
}

impl Pairing {
    /// The pairing is well formed for as many lines as it has entries.
    pub open spec fn sound(self) -> bool {
        self.well_formed(self.of_removed.len() as nat, self.of_added.len() as nat)
    }

    /// The added line that removed line `i` is matched with, if it is
    /// matched.
    pub fn partner_of_removed(&self, i: usize) -> (partner: Option<usize>)
        requires
            self.sound(),
            i < self.of_removed.len(),
        ensures
            partner == added_partner(self.pairs@, i as int),
            partner matches Some(j) ==> j < self.of_added.len(),
    {
        let slot = self.of_removed[i];
        let pair = self.pairs[slot];
        match pair {
            Pair::Matched { removed, added, score } => {
                assert(matches_removed(self.pairs@[slot as int], i as int));
                Some(added)
            },
            _ => None,
        }
    }

    /// The removed line that added line `j` is matched with, if it is
    /// matched.
    pub fn partner_of_added(&self, j: usize) -> (partner: Option<usize>)
        requires
            self.sound(),
            j < self.of_added.len(),
        ensures
            partner == removed_partner(self.pairs@, j as int),
            partner matches Some(i) ==> i < self.of_removed.len(),
    {
        let slot = self.of_added[j];
        let pair = self.pairs[slot];
        match pair {
            Pair::Matched { removed, added, score } => {
                assert(matches_added(self.pairs@[slot as int], j as int));
                Some(removed)
            },
            _ => None,
        }
    }
}

} // verus!
