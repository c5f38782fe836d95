//! The changed lines that wait to be paired, and how they are written once
//! no further line can join them.

use vstd::prelude::*;
use crate::config::Config;
use crate::span::partitions;
use crate::style::{
    lemma_merged_partitions, merge, merge_whole, merged_of, whole_line, Side, StyleSpan,
};
use crate::edit::{
    added_edits, diff_lines, lemma_added_edits_partition, lemma_removed_edits_partition,
    removed_edits, EditSpan,
};
use crate::score::{grid, line_score, line_texts, score_grid};
use crate::matching::{greedy_picks, lemma_greedy_from};
use crate::pair::{
    added_partner, lemma_partners_agree, matches_added, matches_removed, pair_scores,
    pairs_of_lines, removed_partner, Pair, Pairing,
};
use crate::emit::{lemma_partition_within, render_line, rendered_line};

verus! {

/// A changed line of a hunk: its text, the highlight of its text, the
/// side it stands on, and how many lines of that side came before it.
#[derive(Debug)]
pub struct HunkLine {
    pub side: Side,
    pub rank: usize,
    pub content: Vec<u8>,
    pub styles: Vec<StyleSpan>,
}

/// The removed and added lines that have come in since the last line that
/// was neither, in the order in which they came.
#[derive(Debug)]
pub struct Hunk {
    pub lines: Vec<HunkLine>,
    /// The places in `lines` of the removed lines, in order.
    pub removed: Vec<usize>,
    /// The places in `lines` of the added lines, in order.
    pub added: Vec<usize>,
}

/// A line as it came: its side, its text and the highlight of its text.
pub type Arrival = (Side, Seq<u8>, Seq<StyleSpan>);

/// The texts of the lines of one side, in the order in which they came.
pub open spec fn texts_of_side(arrivals: Seq<Arrival>, side: Side) -> Seq<Seq<u8>>
    decreases arrivals.len(),
{
    if arrivals.len() == 0 {
        Seq::empty()
    } else if arrivals.last().0 == side {
        texts_of_side(arrivals.drop_last(), side).push(arrivals.last().1)
    } else {
        texts_of_side(arrivals.drop_last(), side)
    }
}

/// How many lines of its own side came before line `k`.
pub open spec fn rank_of(arrivals: Seq<Arrival>, k: int) -> nat {
    texts_of_side(arrivals.take(k), arrivals[k].0).len()
}

/// The edit spans of line `k`: those of its alignment with the line it is
/// matched with, and one span over the whole line where it is matched
/// with none.
pub open spec fn edits_of_line(arrivals: Seq<Arrival>, pairs: Seq<Pair>, k: int) -> Seq<EditSpan> {
    let (side, content, styles) = arrivals[k];
    let rank = rank_of(arrivals, k) as int;
    match side {
        Side::Removed => match added_partner(pairs, rank) {
            Some(j) => removed_edits(content, texts_of_side(arrivals, Side::Added)[j as int]),
            None => whole_line(content.len() as int, side),
        },
        Side::Added => match removed_partner(pairs, rank) {
            Some(i) => added_edits(texts_of_side(arrivals, Side::Removed)[i as int], content),
            None => whole_line(content.len() as int, side),
        },
        Side::Context => whole_line(content.len() as int, side),
    }
}

/// Line `k` as it is written.
pub open spec fn rendered_hunk_line(
    arrivals: Seq<Arrival>,
    pairs: Seq<Pair>,
    k: int,
    true_color: bool,
) -> Seq<u8> {
    rendered_line(
        arrivals[k].1,
        merged_of(edits_of_line(arrivals, pairs, k), arrivals[k].2, arrivals[k].0),
        true_color,
    )
}

/// The lines of a hunk as they are written: one for each line, in the
/// order in which they came, each in the style that its pair gives it.
pub open spec fn rendered_hunk(arrivals: Seq<Arrival>, config: Config) -> Seq<Seq<u8>> {
    let pairs = pairs_of_lines(
        texts_of_side(arrivals, Side::Removed),
        texts_of_side(arrivals, Side::Added),
        config,
    );
    Seq::new(
        arrivals.len(),
        |k: int| rendered_hunk_line(arrivals, pairs, k, config.true_color_enabled),
    )
}

/// There are no more lines of one side than lines.
pub proof fn lemma_side_bounded(arrivals: Seq<Arrival>, side: Side)
    ensures
        texts_of_side(arrivals, side).len() <= arrivals.len(),
    decreases arrivals.len(),
{
    if arrivals.len() > 0 {
        lemma_side_bounded(arrivals.drop_last(), side);
    }
}

/// Among the texts of its side, a line stands at its rank.
pub proof fn lemma_text_at_rank(arrivals: Seq<Arrival>, k: int)
    requires
        0 <= k < arrivals.len(),
    ensures
        rank_of(arrivals, k) < texts_of_side(arrivals, arrivals[k].0).len(),
        texts_of_side(arrivals, arrivals[k].0)[rank_of(arrivals, k) as int] == arrivals[k].1,
    decreases arrivals.len(),
{
    let rest = arrivals.drop_last();
    if k == arrivals.len() - 1 {
        assert(arrivals.take(k) =~= rest);
    } else {
        lemma_text_at_rank(rest, k);
        assert(rest.take(k) =~= arrivals.take(k));
        assert(rest[k] == arrivals[k]);
    }
}

/// The spans in which a line of a hunk is written partition its text,
/// whatever the line is paired with.
pub proof fn lemma_hunk_line_partitioned(arrivals: Seq<Arrival>, pairs: Seq<Pair>, k: int)
    requires
        0 <= k < arrivals.len(),
        arrivals[k].1.len() <= usize::MAX,
        partitions(arrivals[k].2, arrivals[k].1.len() as int),
    ensures
        partitions(edits_of_line(arrivals, pairs, k), arrivals[k].1.len() as int),
        partitions(
            merged_of(edits_of_line(arrivals, pairs, k), arrivals[k].2, arrivals[k].0),
            arrivals[k].1.len() as int,
        ),
{
    let (side, content, styles) = arrivals[k];
    let len = content.len() as int;
    let rank = rank_of(arrivals, k) as int;
    let edits = edits_of_line(arrivals, pairs, k);
    let whole = whole_line(len, side);
    assert(partitions(whole, len)) by {
        assert(whole.len() == 1);
        assert(whole[0].start == 0 && whole[0].end == len);
    }
    match side {
        Side::Removed => {
            match added_partner(pairs, rank) {
                Some(j) => {
                    lemma_removed_edits_partition(
                        content,
                        texts_of_side(arrivals, Side::Added)[j as int],
                    );
                },
                None => {},
            }
        },
        Side::Added => {
            match removed_partner(pairs, rank) {
                Some(i) => {
                    lemma_added_edits_partition(
                        texts_of_side(arrivals, Side::Removed)[i as int],
                        content,
                    );
                },
                None => {},
            }
        },
        Side::Context => {},
    }
    lemma_merged_partitions(edits, styles, side, len);
}

/// A line that is longer than the limit for diffing is held against no
/// other line: it is written as changed as a whole.
pub proof fn lemma_long_line_whole(arrivals: Seq<Arrival>, config: Config, k: int)
    requires
        0 <= k < arrivals.len(),
        arrivals.len() <= usize::MAX,
        arrivals[k].1.len() > config.max_line_length_for_diffing,
    ensures
        edits_of_line(
            arrivals,
            pairs_of_lines(
                texts_of_side(arrivals, Side::Removed),
                texts_of_side(arrivals, Side::Added),
                config,
            ),
            k,
        ) == whole_line(arrivals[k].1.len() as int, arrivals[k].0),
{
    let removed = texts_of_side(arrivals, Side::Removed);
    let added = texts_of_side(arrivals, Side::Added);
    let max_len = config.max_line_length_for_diffing as int;
    let threshold = config.minimum_pairing_similarity;
    let m = score_grid(removed, added, max_len);
    let picks = greedy_picks(m, threshold, added.len());
    let pairs = pairs_of_lines(removed, added, config);
    let rank = rank_of(arrivals, k) as int;
    lemma_side_bounded(arrivals, Side::Removed);
    lemma_side_bounded(arrivals, Side::Added);
    lemma_text_at_rank(arrivals, k);
    lemma_greedy_from(
        m,
        threshold,
        Seq::new(m.len(), |i: int| false),
        Seq::new(added.len(), |j: int| false),
    );
    assert forall|p: int| 0 <= p < pairs.len() && pairs[p] is Matched implies p < picks.len()
        && pairs[p]->Matched_removed == picks[p].0 && pairs[p]->Matched_added == picks[p].1
        && m[picks[p].0 as int][picks[p].1 as int] > threshold && picks[p].0 < removed.len()
        && picks[p].1 < added.len() by {
    }
    match arrivals[k].0 {
        Side::Removed => {
            if exists|p: int| 0 <= p < pairs.len() && matches_removed(#[trigger] pairs[p], rank) {
                let p = choose|p: int|
                    0 <= p < pairs.len() && matches_removed(#[trigger] pairs[p], rank);
                assert(pairs[p] is Matched);
                assert(m[rank][picks[p].1 as int] == 0);
            }
        },
        Side::Added => {
            if exists|p: int| 0 <= p < pairs.len() && matches_added(#[trigger] pairs[p], rank) {
                let p = choose|p: int|
                    0 <= p < pairs.len() && matches_added(#[trigger] pairs[p], rank);
                assert(pairs[p] is Matched);
                assert(m[picks[p].0 as int][rank] == 0);
            }
        },
        Side::Context => {},
    }
}

impl View for Hunk {
    type V = Seq<Arrival>;

    open spec fn view(&self) -> Seq<Arrival> {
        Seq::new(
            self.lines.len() as nat,
            |k: int| (self.lines@[k].side, self.lines@[k].content@, self.lines@[k].styles@),
        )
    }
}

impl Hunk {
    /// What is kept beside the lines agrees with them: each line knows its
    /// rank, the places of the lines of each side are those of that side
    /// in order, and each highlight partitions its line.
    pub open spec fn well_formed(self) -> bool {
        &&& self.removed.len() + self.added.len() == self.lines.len()
        &&& self.removed.len() == texts_of_side(self@, Side::Removed).len()
        &&& self.added.len() == texts_of_side(self@, Side::Added).len()
        &&& forall|k: int|
            0 <= k < self.lines.len() ==> {
                let line = #[trigger] self.lines@[k];
                &&& partitions(line.styles@, line.content.len() as int)
                &&& line.rank == rank_of(self@, k)
                &&& match line.side {
                    Side::Removed => line.rank < self.removed.len()
                        && self.removed@[line.rank as int] == k,
                    Side::Added => line.rank < self.added.len() && self.added@[line.rank as int]
                        == k,
                    Side::Context => false,
                }
            }
        &&& forall|i: int|
            0 <= i < self.removed.len() ==> (#[trigger] self.removed@[i]) < self.lines.len()
                && self.lines@[self.removed@[i] as int].side == Side::Removed
                && self.lines@[self.removed@[i] as int].rank == i
                && self.lines@[self.removed@[i] as int].content@ == texts_of_side(
                self@,
                Side::Removed,
            )[i]
        &&& forall|j: int|
            0 <= j < self.added.len() ==> (#[trigger] self.added@[j]) < self.lines.len()
                && self.lines@[self.added@[j] as int].side == Side::Added
                && self.lines@[self.added@[j] as int].rank == j
                && self.lines@[self.added@[j] as int].content@ == texts_of_side(
                self@,
                Side::Added,
            )[j]
    }

    /// A hunk without lines.
    pub fn new() -> (hunk: Hunk)
        ensures
            hunk.well_formed(),
            hunk@ == Seq::<Arrival>::empty(),
    {
        let hunk = Hunk { lines: Vec::new(), removed: Vec::new(), added: Vec::new() };
        assert(hunk@ =~= Seq::<Arrival>::empty());
        hunk
    }

    /// How many lines wait in the hunk.
    pub fn len(&self) -> (n: usize)
        ensures
            n == self@.len(),
    {
        self.lines.len()
    }

    /// Takes all lines out, and keeps the room that they took.
    pub fn reset(&mut self)
        ensures
            final(self).well_formed(),
            final(self)@ == Seq::<Arrival>::empty(),
    {
        self.lines.clear();
        self.removed.clear();
        self.added.clear();
        assert(self@ =~= Seq::<Arrival>::empty());
    }

    /// Adds a removed or an added line behind the lines that came before.
    pub fn push(&mut self, side: Side, content: Vec<u8>, styles: Vec<StyleSpan>)
        requires
            old(self).well_formed(),
            side != Side::Context,
            partitions(styles@, content.len() as int),
        ensures
            final(self).well_formed(),
            final(self)@ == old(self)@.push((side, content@, styles@)),
    {
        let ghost before = self@;
        let ghost arrival = (side, content@, styles@);
        let place = self.lines.len();
        let rank = match side {
            Side::Removed => self.removed.len(),
            _ => self.added.len(),
        };
        match side {
            Side::Removed => {
                self.removed.push(place);
            },
            _ => {
                self.added.push(place);
            },
        }
        self.lines.push(HunkLine { side, rank, content, styles });
        proof {
            let after = self@;
            assert(after =~= before.push(arrival));
            assert(after.drop_last() =~= before);
            assert(after.last() == arrival);
            assert forall|k: int| 0 <= k < self.lines.len() implies {
                let line = #[trigger] self.lines@[k];
                &&& partitions(line.styles@, line.content.len() as int)
                &&& line.rank == rank_of(after, k)
                &&& match line.side {
                    Side::Removed => line.rank < self.removed.len()
                        && self.removed@[line.rank as int] == k,
                    Side::Added => line.rank < self.added.len() && self.added@[line.rank as int]
                        == k,
                    Side::Context => false,
                }
            } by {
                if k < place {
                    assert(self.lines@[k] == old(self).lines@[k]);
                    assert(after.take(k) =~= before.take(k));
                    assert(after[k] == before[k]);
                } else {
                    assert(after.take(k) =~= before);
                }
            }
            assert forall|i: int| 0 <= i < self.removed.len() implies (#[trigger] self.removed@[i])
                < self.lines.len() && self.lines@[self.removed@[i] as int].side == Side::Removed
                && self.lines@[self.removed@[i] as int].rank == i
                && self.lines@[self.removed@[i] as int].content@ == texts_of_side(
                after,
                Side::Removed,
            )[i] by {
                if i < old(self).removed.len() {
                    assert(self.removed@[i] == old(self).removed@[i]);
                    let place = self.removed@[i] as int;
                    assert(self.lines@[place] == old(self).lines@[place]);
                }
            }
            assert forall|j: int| 0 <= j < self.added.len() implies (#[trigger] self.added@[j])
                < self.lines.len() && self.lines@[self.added@[j] as int].side == Side::Added
                && self.lines@[self.added@[j] as int].rank == j
                && self.lines@[self.added@[j] as int].content@ == texts_of_side(
                after,
                Side::Added,
            )[j] by {
                if j < old(self).added.len() {
                    assert(self.added@[j] == old(self).added@[j]);
                    let place = self.added@[j] as int;
                    assert(self.lines@[place] == old(self).lines@[place]);
                }
            }
        }
    }

    /// Scores every removed line of the hunk against every added line.
    pub fn scores(&self, max_len: usize) -> (scores: Vec<Vec<u32>>)
        requires
            self.well_formed(),
        ensures
            grid(scores@) == score_grid(
                texts_of_side(self@, Side::Removed),
                texts_of_side(self@, Side::Added),
                max_len as int,
            ),
    {
        let ghost want = score_grid(
            texts_of_side(self@, Side::Removed),
            texts_of_side(self@, Side::Added),
            max_len as int,
        );
        let mut scores: Vec<Vec<u32>> = Vec::new();
        let mut i: usize = 0;
        while i < self.removed.len()
            invariant
                i <= self.removed.len(),
                self.well_formed(),
                scores.len() == i,
                want == score_grid(
                    texts_of_side(self@, Side::Removed),
                    texts_of_side(self@, Side::Added),
                    max_len as int,
                ),
                forall|r: int| 0 <= r < i ==> (#[trigger] scores@[r])@ == want[r],
            decreases self.removed.len() - i,
        {
            let mut row: Vec<u32> = Vec::new();
            let mut j: usize = 0;
            while j < self.added.len()
                invariant
                    i < self.removed.len(),
                    j <= self.added.len(),
                    self.well_formed(),
                    row.len() == j,
                    want == score_grid(
                        texts_of_side(self@, Side::Removed),
                        texts_of_side(self@, Side::Added),
                        max_len as int,
                    ),
                    forall|c: int| 0 <= c < j ==> #[trigger] row@[c] == want[i as int][c],
                decreases self.added.len() - j,
            {
                let left = &self.lines[self.removed[i]];
                let right = &self.lines[self.added[j]];
                let score = line_score(left.content.as_slice(), right.content.as_slice(), max_len);
                row.push(score);
                j += 1;
            }
            assert(row@ =~= want[i as int]);
            scores.push(row);
            i += 1;
        }
        assert(grid(scores@) =~= want);
        scores
    }

    /// The edit spans of each line that is matched with another. Each
    /// matched pair is aligned once, and the spans of both its lines are
    /// kept.
    fn aligned(&self, pairing: &Pairing) -> (edits: Vec<Option<Vec<EditSpan>>>)
        requires
            self.well_formed(),
            pairing.sound(),
            pairing.of_removed.len() == self.removed.len(),
            pairing.of_added.len() == self.added.len(),
        ensures
            edits.len() == self.lines.len(),
            forall|k: int|
                0 <= k < self.lines.len() ==> match #[trigger] edits@[k] {
                    Some(spans) => spans@ == edits_of_line(self@, pairing.pairs@, k),
                    None => edits_of_line(self@, pairing.pairs@, k) == whole_line(
                        self.lines@[k].content.len() as int,
                        self.lines@[k].side,
                    ),
                },
    {
        let ghost arrivals = self@;
        let ghost pairs = pairing.pairs@;
        let n = self.lines.len();
        let mut edits: Vec<Option<Vec<EditSpan>>> = Vec::new();
        let mut k: usize = 0;
        while k < n
            invariant
                k <= n,
                edits.len() == k,
                forall|t: int| 0 <= t < k ==> #[trigger] edits@[t] is None,
            decreases n - k,
        {
            edits.push(None);
            k += 1;
        }
        let mut i: usize = 0;
        while i < self.removed.len()
            invariant
                i <= self.removed.len(),
                n == self.lines.len(),
                self.well_formed(),
                arrivals == self@,
                pairs == pairing.pairs@,
                pairing.sound(),
                pairing.of_removed.len() == self.removed.len(),
                pairing.of_added.len() == self.added.len(),
                edits.len() == n,
                forall|t: int|
                    0 <= t < n ==> match #[trigger] edits@[t] {
                        Some(spans) => spans@ == edits_of_line(arrivals, pairs, t),
                        None => true,
                    },
                forall|r: int|
                    0 <= r < i ==> match #[trigger] added_partner(pairs, r) {
                        Some(j) => edits@[self.removed@[r] as int] is Some
                            && edits@[self.added@[j as int] as int] is Some,
                        None => true,
                    },
            decreases self.removed.len() - i,
        {
            match pairing.partner_of_removed(i) {
                Some(j) => {
                    let at_left = self.removed[i];
                    let at_right = self.added[j];
                    let left = &self.lines[at_left];
                    let right = &self.lines[at_right];
                    let (left_spans, right_spans) = diff_lines(
                        left.content.as_slice(),
                        right.content.as_slice(),
                    );
                    proof {
                        lemma_partners_agree(*pairing, i as int, j as int);
                        assert(arrivals[at_left as int] == (
                            left.side,
                            left.content@,
                            left.styles@,
                        ));
                        assert(arrivals[at_right as int] == (
                            right.side,
                            right.content@,
                            right.styles@,
                        ));
                        assert(left_spans@ == edits_of_line(arrivals, pairs, at_left as int));
                        assert(right_spans@ == edits_of_line(arrivals, pairs, at_right as int));
                    }
                    edits.set(at_left, Some(left_spans));
                    edits.set(at_right, Some(right_spans));
                },
                None => {},
            }
            i += 1;
        }
        proof {
            assert forall|k: int| 0 <= k < self.lines.len() implies match #[trigger] edits@[k] {
                Some(spans) => spans@ == edits_of_line(arrivals, pairs, k),
                None => edits_of_line(arrivals, pairs, k) == whole_line(
                    self.lines@[k].content.len() as int,
                    self.lines@[k].side,
                ),
            } by {
                let line = self.lines@[k];
                let rank = line.rank as int;
                assert(arrivals[k] == (line.side, line.content@, line.styles@));
                if edits@[k] is None {
                    match line.side {
                        Side::Removed => {
                            assert(self.removed@[rank] == k);
                            assert(added_partner(pairs, rank) is None);
                        },
                        Side::Added => {
                            assert(self.added@[rank] == k);
                            match removed_partner(pairs, rank) {
                                Some(r) => {
                                    assert(r < self.removed.len()) by {
                                        let q = choose|q: int|
                                            0 <= q < pairs.len() && matches_added(
                                                #[trigger] pairs[q],
                                                rank,
                                            );
                                        assert(pairs[q] is Matched);
                                    }
                                    lemma_partners_agree(*pairing, r as int, rank);
                                    assert(added_partner(pairs, r as int) == Some(rank as usize));
                                },
                                None => {},
                            }
                        },
                        Side::Context => {},
                    }
                }
            }
        }
        edits
    }

    /// Writes the lines of the hunk. The removed lines are paired with the
    /// added ones; a line that is matched shows what changed against the
    /// line it is matched with, and any other is shown as changed as a
    /// whole. The lines come out in the order in which they came in.
    pub fn render(&self, config: &Config) -> (out: Vec<Vec<u8>>)
        requires
            self.well_formed(),
        ensures
            line_texts(out@) == rendered_hunk(self@, *config),
            out.len() == self@.len(),
    {
        let ghost arrivals = self@;
        let scores = self.scores(config.max_line_length_for_diffing);
        assert(grid(scores@).len() == self.removed.len());
        let pairing = pair_scores(&scores, self.added.len(), config.minimum_pairing_similarity);
        let ghost pairs = pairing.pairs@;
        assert(pairs == pairs_of_lines(
            texts_of_side(arrivals, Side::Removed),
            texts_of_side(arrivals, Side::Added),
            *config,
        ));
        let edits = self.aligned(&pairing);
        let mut out: Vec<Vec<u8>> = Vec::new();
        let mut k: usize = 0;
        while k < self.lines.len()
            invariant
                k <= self.lines.len(),
                self.well_formed(),
                arrivals == self@,
                edits.len() == self.lines.len(),
                forall|t: int|
                    0 <= t < self.lines.len() ==> match #[trigger] edits@[t] {
                        Some(spans) => spans@ == edits_of_line(arrivals, pairs, t),
                        None => edits_of_line(arrivals, pairs, t) == whole_line(
                            self.lines@[t].content.len() as int,
                            self.lines@[t].side,
                        ),
                    },
                out.len() == k,
                forall|t: int|
                    0 <= t < k ==> (#[trigger] out@[t])@ == rendered_hunk_line(
                        arrivals,
                        pairs,
                        t,
                        config.true_color_enabled,
                    ),
            decreases self.lines.len() - k,
        {
            let line = &self.lines[k];
            let len = line.content.len();
            assert(arrivals[k as int] == (line.side, line.content@, line.styles@));
            let merged = match &edits[k] {
                Some(spans) => merge(spans, &line.styles, line.side),
                None => merge_whole(&line.styles, len, line.side),
            };
            proof {
                assert(merged@ == merged_of(
                    edits_of_line(arrivals, pairs, k as int),
                    line.styles@,
                    line.side,
                ));
                lemma_hunk_line_partitioned(arrivals, pairs, k as int);
                lemma_partition_within(merged@, len as int);
            }
            let bytes = render_line(line.content.as_slice(), &merged, config.true_color_enabled);
            out.push(bytes);
            k += 1;
        }
        assert(line_texts(out@) =~= rendered_hunk(arrivals, *config));
        out
    }
}

} // verus!
