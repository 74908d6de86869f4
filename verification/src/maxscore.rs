//! The term-at-a-time MAXSCORE scan, its per-term score ceiling, and its
//! candidate-work accounting.
use crate::advance::ahead;
use crate::advance::lemma_start_ahead;
use crate::advance::lemma_step_ahead;
use crate::binary::lemma_formats;
use crate::binary::Binary32;
use crate::binary::Binary64;
use crate::bounds::cannot_compete;
use crate::bounds::ceiling_total;
use crate::bounds::is_order;
use crate::bounds::picked;
use crate::bounds::raised;
use crate::bounds::score_sum_cannot_compete;
use crate::bounds::score_sum_upper_bound_factor;
use crate::bounds::sum_factor;
use crate::bounds::total;
use crate::cursor::ascending;
use crate::cursor::tf_at;
use crate::cursor::MaterializedTerm;
use crate::cursor::TermCursor;
use crate::cursor::TermModel;
use crate::documents::lengths_of;
use crate::documents::DocumentLengths;
use crate::ranking::file_doc;
use crate::ranking::filed;
use crate::ranking::is_top_k;
use crate::ranking::RankedDoc;
use crate::scorer::bm25_doc_weight_upper_bound;
use crate::scorer::bm25_weight;
use crate::scorer::doc_weight_ceiling;
use crate::scorer::CombinedFieldsBM25Scorer;
use crate::search::matching;
use crate::search::scoring;
use crate::soundness::law_maxscore_is_exact;
use crate::soundness::numeric_scores;
use crate::soundness::regular;
use vstd::prelude::*;

verus! {

/// The most that a term with this weight can add to a score.
pub open spec fn ceiling_of(idf: Binary32) -> Binary32 {
    if Binary32::zero_spec().before(idf) {
        idf.times(doc_weight_ceiling())
    } else {
        Binary32::zero_spec()
    }
}

/// The constant per-term score ceiling, zero when the term cannot raise a score.
///
/// `idf * (K1 + 1)` is what the exact weights stay below, but a rounded weight
/// can land above it, so the ceiling scales by the bound that
/// [`CombinedFieldsBM25Scorer::doc_weight`] clamps to.
pub fn term_upper_bound(idf: Binary32) -> (ceiling: Binary32)
    ensures
        ceiling == ceiling_of(idf),
{
    if Binary32::zero().lt(idf) {
        idf.mul(bm25_doc_weight_upper_bound())
    } else {
        Binary32::zero()
    }
}

/// A ceiling is a number, whatever the weight.
pub proof fn lemma_ceiling_is_a_number(idf: Binary32)
    ensures
        !ceiling_of(idf).is_nan_spec(),
        ceiling_of(idf).key() >= 0,
{
    lemma_formats();
    reveal(Binary32::times);
}

/// Candidate-work accounting for one scan.
#[derive(Clone, Copy, Debug)]
pub struct MaxscoreStats {
    /// Candidates pulled from the essential terms' cursors.
    pub discovered: u64,
    /// Discovered candidates skipped by the upper-bound test.
    pub pruned: u64,
    /// Candidates fully scored.
    pub scored: u64,
}

impl Default for MaxscoreStats {
    fn default() -> (r: Self)
        ensures
            r.discovered == 0,
            r.pruned == 0,
            r.scored == 0,
    {
        MaxscoreStats { discovered: 0, pruned: 0, scored: 0 }
    }
}

/// What a scan is given.
pub struct ScanInput {
    pub terms: Seq<TermModel>,
    /// The blended length of the document at each row.
    pub lengths: spec_fn(u64) -> Binary32,
    pub avg_doc_length: Binary32,
    pub limit: nat,
    pub require_all: bool,
}

/// How far a scan has come.
pub struct ScanState {
    /// How many postings of each term are consumed.
    pub positions: Seq<nat>,
    /// The documents kept, best first.
    pub top: Seq<RankedDoc>,
    /// The score of the last of them once there are enough.
    pub threshold: Binary32,
    pub discovered: nat,
    pub pruned: nat,
    pub scored: nat,
}

/// The terms' ceilings.
pub open spec fn ceilings(terms: Seq<TermModel>) -> Seq<Binary32> {
    Seq::new(terms.len(), |t: int| terms[t].ceiling)
}

/// Where index `i` goes in an order of smaller indices: behind every one whose
/// bound is not greater.
pub open spec fn order_place(bounds: Seq<Binary32>, order: Seq<usize>, i: int) -> int
    decreases order.len(),
{
    if order.len() == 0 {
        0
    } else if bounds[i].before(bounds[order.last() as int]) {
        order_place(bounds, order.drop_last(), i)
    } else {
        order.len() as int
    }
}

/// The indices below `n` by ascending bound, equal bounds by ascending index.
pub open spec fn ascending_order(bounds: Seq<Binary32>, n: nat) -> Seq<usize>
    decreases n,
{
    if n == 0 {
        Seq::empty()
    } else {
        let before = ascending_order(bounds, (n - 1) as nat);
        before.insert(order_place(bounds, before, n - 1), (n - 1) as usize)
    }
}

/// How many leading ceilings, from the first `from` on, cannot beat the floor together.
pub open spec fn hopeless_prefix(
    bounds: Seq<Binary32>,
    floor: Binary32,
    factor: Binary64,
    from: nat,
) -> nat
    decreases bounds.len() - from,
{
    if from < bounds.len() && cannot_compete(
        Binary32::zero_spec(),
        ceiling_total(bounds.take(from as int + 1)),
        floor,
        factor,
    ) {
        hopeless_prefix(bounds, floor, factor, from + 1)
    } else {
        from
    }
}

/// The smallest head among some terms, `u64::MAX` if all are exhausted.
pub open spec fn lowest_head(
    terms: Seq<TermModel>,
    positions: Seq<nat>,
    indices: Seq<usize>,
) -> u64
    decreases indices.len(),
{
    if indices.len() == 0 {
        u64::MAX
    } else {
        let rest = lowest_head(terms, positions, indices.drop_last());
        let t = indices.last() as int;
        match terms[t].head_at(positions[t]) {
            Some(row) => if row < rest {
                row
            } else {
                rest
            },
            None => rest,
        }
    }
}

/// The kept documents and the threshold after one more scored document.
pub open spec fn collected(
    top: Seq<RankedDoc>,
    threshold: Binary32,
    limit: nat,
    doc: RankedDoc,
) -> (Seq<RankedDoc>, Binary32) {
    if top.len() < limit {
        let more = filed(top, doc);
        (
            more,
            if more.len() == limit {
                more.last().score
            } else {
                threshold
            },
        )
    } else if top.len() > 0 && top.last().score.before(doc.score) {
        let more = filed(top.drop_last(), doc);
        (more, more.last().score)
    } else {
        (top, threshold)
    }
}

impl ScanInput {
    /// The terms by ascending ceiling.
    pub open spec fn order(self) -> Seq<usize> {
        ascending_order(ceilings(self.terms), self.terms.len())
    }

    /// The ceilings in that order.
    pub open spec fn ordered_ceilings(self) -> Seq<Binary32> {
        picked(ceilings(self.terms), self.order())
    }

    /// What the term adds to the score of the document at `row`.
    pub open spec fn contribution(self, t: int, tf: Binary32, row: u64) -> Binary32 {
        self.terms[t].idf.times(bm25_weight(self.avg_doc_length, tf, (self.lengths)(row)))
    }

    /// How many terms, in their order, are non-essential: once enough
    /// documents are kept, those whose ceilings together cannot beat the threshold.
    pub open spec fn split(self, s: ScanState) -> nat {
        if s.top.len() < self.limit {
            0
        } else {
            hopeless_prefix(
                self.ordered_ceilings(),
                s.threshold,
                sum_factor(self.terms.len()),
                0,
            )
        }
    }

    /// The terms that candidates are pulled from.
    pub open spec fn essential(self, s: ScanState) -> Seq<usize> {
        self.order().skip(self.split(s) as int)
    }

    /// The next candidate, `u64::MAX` if there is none.
    pub open spec fn next(self, s: ScanState) -> u64 {
        lowest_head(self.terms, s.positions, self.essential(s))
    }

    /// The frequency that is read for a term: an essential one's from its
    /// cursor if that sits on `row`, any other's by a probe.
    pub open spec fn tf_read(self, s: ScanState, t: int, row: u64) -> Binary32 {
        if self.essential(s).contains(t as usize) {
            if self.terms[t].head_at(s.positions[t]) == Some(row) {
                self.terms[t].postings[s.positions[t] as int].1
            } else {
                Binary32::zero_spec()
            }
        } else {
            tf_at(self.terms[t].postings, row)
        }
    }

    /// What each term adds to the score of the candidate.
    pub open spec fn parts(self, s: ScanState, row: u64) -> Seq<Binary32> {
        Seq::new(self.terms.len(), |t: int| self.contribution(t, self.tf_read(s, t, row), row))
    }

    /// Whether some term has no positive frequency at the candidate.
    pub open spec fn lacks_term(self, s: ScanState, row: u64) -> bool {
        exists|t: int|
            0 <= t < self.terms.len() && (#[trigger] self.tf_read(s, t, row)).at_most(
                Binary32::zero_spec(),
            )
    }

    /// The cursors past the candidate.
    pub open spec fn advanced(self, s: ScanState, row: u64) -> Seq<nat> {
        Seq::new(
            self.terms.len(),
            |t: int|
                if self.essential(s).contains(t as usize) && self.terms[t].head_at(s.positions[t])
                    == Some(row) {
                    s.positions[t] + 1
                } else {
                    s.positions[t]
                },
        )
    }

    /// Whether the essential terms' part of the candidate's score and the other
    /// terms' ceilings cannot beat the threshold. Parts of both signs can round
    /// further apart than their sum is widened, so where a part is negative, the
    /// others have to be hopeless without it, or the whole score, if nothing is
    /// left to probe.
    pub open spec fn hopeless(self, s: ScanState, row: u64) -> bool {
        &&& self.out_of_bounds(s, picked(self.parts(s, row), self.essential(s)))
        &&& self.out_of_bounds(s, raised(picked(self.parts(s, row), self.essential(s)))) || (
        self.split(s) == 0 && total(self.parts(s, row)).at_most(s.threshold))
    }

    /// Whether the bound that some parts and the non-essential ceilings make up
    /// cannot beat the threshold, once enough documents are kept.
    pub open spec fn out_of_bounds(self, s: ScanState, parts: Seq<Binary32>) -> bool {
        s.top.len() >= self.limit && cannot_compete(
            total(parts),
            ceiling_total(self.ordered_ceilings().take(self.split(s) as int)),
            s.threshold,
            sum_factor(self.terms.len()),
        )
    }

    /// One candidate: skipped as hopeless, dropped for a missing term, or scored.
    pub open spec fn step(self, s: ScanState) -> ScanState {
        let row = self.next(s);
        let seen = ScanState {
            positions: self.advanced(s, row),
            discovered: s.discovered + 1,
            ..s
        };
        if self.hopeless(s, row) {
            ScanState { pruned: s.pruned + 1, ..seen }
        } else if self.require_all && self.lacks_term(s, row) {
            seen
        } else {
            let doc = RankedDoc { row_id: row, score: total(self.parts(s, row)) };
            let (top, threshold) = collected(s.top, s.threshold, self.limit, doc);
            ScanState { top, threshold, scored: s.scored + 1, ..seen }
        }
    }

    /// How many postings are left.
    pub open spec fn remaining(self, positions: Seq<nat>, n: nat) -> nat
        decreases n,
    {
        if n == 0 {
            0
        } else {
            let t = n - 1;
            let left = self.terms[t].postings.len() - positions[t];
            self.remaining(positions, (n - 1) as nat) + (if left > 0 {
                left as nat
            } else {
                0
            })
        }
    }

    /// The end of the scan that goes on from `s`.
    pub open spec fn run(self, s: ScanState) -> ScanState
        decreases self.remaining(s.positions, self.terms.len()),
        when self.terms.len() <= usize::MAX
    {
        if self.next(s) == u64::MAX {
            s
        } else {
            proof {
                self.lemma_step_consumes(s);
            }
            self.run(self.step(s))
        }
    }

    /// The start of a scan from the given cursor positions.
    pub open spec fn start(positions: Seq<nat>) -> ScanState {
        ScanState {
            positions,
            top: Seq::empty(),
            threshold: Binary32 { bits: 0xff80_0000 },
            discovered: 0,
            pruned: 0,
            scored: 0,
        }
    }

    /// A candidate is the head of some essential term.
    pub proof fn lemma_lowest_head(self, positions: Seq<nat>, indices: Seq<usize>)
        ensures
            lowest_head(self.terms, positions, indices) != u64::MAX ==> exists|j: int|
                0 <= j < indices.len() && self.terms[(#[trigger] indices[j]) as int].head_at(
                    positions[indices[j] as int],
                ) == Some(lowest_head(self.terms, positions, indices)),
            forall|j: int|
                0 <= j < indices.len() ==> match self.terms[(
                #[trigger] indices[j]) as int].head_at(positions[indices[j] as int]) {
                    Some(row) => row >= lowest_head(self.terms, positions, indices),
                    None => true,
                },
        decreases indices.len(),
    {
        if indices.len() > 0 {
            let init = indices.drop_last();
            self.lemma_lowest_head(positions, init);
            let low = lowest_head(self.terms, positions, indices);
            let low0 = lowest_head(self.terms, positions, init);
            if low != u64::MAX {
                if low == low0 {
                    let j = choose|j: int|
                        0 <= j < init.len() && self.terms[(#[trigger] init[j]) as int].head_at(
                            positions[init[j] as int],
                        ) == Some(low0);
                    assert(indices[j] == init[j]);
                } else {
                    assert(self.terms[indices[indices.len() - 1] as int].head_at(
                        positions[indices[indices.len() - 1] as int],
                    ) == Some(low));
                }
            }
            assert forall|j: int| 0 <= j < indices.len() implies match self.terms[(
            #[trigger] indices[j]) as int].head_at(positions[indices[j] as int]) {
                Some(row) => row >= low,
                None => true,
            } by {
                if j < init.len() {
                    assert(indices[j] == init[j]);
                }
            }
        }
    }

    /// Each step consumes a posting.
    pub proof fn lemma_step_consumes(self, s: ScanState)
        requires
            self.terms.len() <= usize::MAX,
            self.next(s) != u64::MAX,
        ensures
            self.remaining(self.step(s).positions, self.terms.len()) < self.remaining(
                s.positions,
                self.terms.len(),
            ),
    {
        let row = self.next(s);
        let ess = self.essential(s);
        self.lemma_split_range(s);
        self.lemma_lowest_head(s.positions, ess);
        let j = choose|j: int|
            0 <= j < ess.len() && self.terms[(#[trigger] ess[j]) as int].head_at(
                s.positions[ess[j] as int],
            ) == Some(row);
        let t = ess[j] as int;
        assert(ess[j] == self.order()[self.split(s) + j]);
        assert(ess.contains(t as usize));
        self.lemma_remaining(s.positions, self.advanced(s, row), self.terms.len(), t);
        assert(self.step(s).positions == self.advanced(s, row));
    }

    proof fn lemma_remaining(self, before: Seq<nat>, after: Seq<nat>, n: nat, t: int)
        requires
            n <= self.terms.len(),
            forall|i: int| 0 <= i < n ==> #[trigger] before[i] <= after[i],
        ensures
            self.remaining(after, n) <= self.remaining(before, n),
            0 <= t < n && before[t] < self.terms[t].postings.len() && before[t] < after[t]
                ==> self.remaining(after, n) < self.remaining(before, n),
        decreases n,
    {
        if n > 0 {
            self.lemma_remaining(before, after, (n - 1) as nat, t);
            assert(before[n - 1] <= after[n - 1]);
        }
    }

    /// How many terms can be non-essential.
    pub proof fn lemma_split_range(self, s: ScanState)
        requires
            self.terms.len() <= usize::MAX,
        ensures
            0 <= self.split(s) <= self.terms.len(),
            is_order(self.order(), self.terms.len()),
            self.ordered_ceilings().len() == self.terms.len(),
    {
        lemma_order(ceilings(self.terms), self.terms.len());
        lemma_prefix_range(
            self.ordered_ceilings(),
            s.threshold,
            sum_factor(self.terms.len()),
            0,
        );
    }
}

proof fn lemma_prefix_range(bounds: Seq<Binary32>, floor: Binary32, factor: Binary64, from: nat)
    requires
        from <= bounds.len(),
    ensures
        from <= hopeless_prefix(bounds, floor, factor, from) <= bounds.len(),
    decreases bounds.len() - from,
{
    if from < bounds.len() && cannot_compete(
        Binary32::zero_spec(),
        ceiling_total(bounds.take(from as int + 1)),
        floor,
        factor,
    ) {
        lemma_prefix_range(bounds, floor, factor, from + 1);
    }
}

proof fn lemma_order_place(bounds: Seq<Binary32>, order: Seq<usize>, i: int)
    ensures
        0 <= order_place(bounds, order, i) <= order.len(),
        forall|j: int|
            order_place(bounds, order, i) <= j < order.len() ==> bounds[i].before(
                bounds[(#[trigger] order[j]) as int],
            ),
        order_place(bounds, order, i) > 0 ==> !bounds[i].before(
            bounds[order[order_place(bounds, order, i) - 1] as int],
        ),
    decreases order.len(),
{
    if order.len() > 0 && bounds[i].before(bounds[order.last() as int]) {
        let init = order.drop_last();
        lemma_order_place(bounds, init, i);
        assert forall|j: int| order_place(bounds, order, i) <= j < order.len() implies bounds[i].before(
        bounds[(#[trigger] order[j]) as int]) by {
            if j < init.len() {
                assert(order[j] == init[j]);
            }
        }
    }
}

/// The order holds every index once.
pub proof fn lemma_order(bounds: Seq<Binary32>, n: nat)
    requires
        n <= usize::MAX,
    ensures
        is_order(ascending_order(bounds, n), n),
    decreases n,
{
    if n > 0 {
        let init = ascending_order(bounds, (n - 1) as nat);
        let last = (n - 1) as usize;
        lemma_order(bounds, (n - 1) as nat);
        lemma_order_place(bounds, init, n - 1);
        let p = order_place(bounds, init, n - 1);
        let all = ascending_order(bounds, n);
        assert(all == init.insert(p, last));
        assert forall|j: int| 0 <= j < n implies 0 <= #[trigger] all[j] < n by {
            if j < p {
                assert(all[j] == init[j]);
            } else if j > p {
                assert(all[j] == init[j - 1]);
            }
        }
        assert forall|i: usize| 0 <= i < n implies #[trigger] all.contains(i) by {
            if i == last {
                assert(all[p] == i);
            } else {
                assert(init.contains(i));
                let j = choose|j: int| 0 <= j < init.len() && init[j] == i;
                if j < p {
                    assert(all[j] == i);
                } else {
                    assert(all[j + 1] == i);
                }
            }
        }
        assert forall|i: int, j: int| 0 <= i < j < n implies all[i] != all[j] by {
            let a = if i < p {
                i
            } else {
                i - 1
            };
            let b = if j < p {
                j
            } else {
                j - 1
            };
            if i == p {
                assert(all[j] == init[b]);
            } else if j == p {
                assert(all[i] == init[a]);
            } else {
                assert(all[i] == init[a] && all[j] == init[b]);
            }
        }
        assert(all.no_duplicates());
    }
}

/// The order of the terms ascends by ceiling, equal ceilings by index.
pub proof fn law_order_ascends(bounds: Seq<Binary32>, n: nat, i: int, j: int)
    requires
        n <= usize::MAX,
        n <= bounds.len(),
        forall|t: int| 0 <= t < bounds.len() ==> !(#[trigger] bounds[t]).is_nan_spec(),
        0 <= i < j < n,
    ensures
        is_order(ascending_order(bounds, n), n),
        ({
            let a = ascending_order(bounds, n)[i];
            let b = ascending_order(bounds, n)[j];
            bounds[a as int].key() < bounds[b as int].key() || (bounds[a as int].key()
                == bounds[b as int].key() && a < b)
        }),
    decreases n,
{
    lemma_order(bounds, n);
    let init = ascending_order(bounds, (n - 1) as nat);
    let all = ascending_order(bounds, n);
    let last = (n - 1) as usize;
    lemma_order(bounds, (n - 1) as nat);
    lemma_order_place(bounds, init, n - 1);
    let p = order_place(bounds, init, n - 1);
    if i == p {
        assert(all[j] == init[j - 1]);
        assert(bounds[n - 1].before(bounds[init[j - 1] as int]));
    } else if j == p {
        assert(all[i] == init[i]);
        assert(!bounds[n - 1].before(bounds[init[p - 1] as int]));
        if i < p - 1 {
            law_order_ascends(bounds, (n - 1) as nat, i, p - 1);
        }
    } else {
        let a = if i < p {
            i
        } else {
            i - 1
        };
        let b = if j < p {
            j
        } else {
            j - 1
        };
        law_order_ascends(bounds, (n - 1) as nat, a, b);
    }
}

/// The terms that some cursors stand for.
pub open spec fn models<C: TermCursor>(cursors: Seq<C>) -> Seq<TermModel> {
    Seq::new(cursors.len(), |i: int| cursors[i].model())
}

/// How many postings each cursor has consumed.
pub open spec fn positions<C: TermCursor>(cursors: Seq<C>) -> Seq<nat> {
    Seq::new(cursors.len(), |i: int| cursors[i].position())
}

/// Whether a cursor is called in order if, behind row `last`, it is consumed only
/// where it is essential, and probed only where it is not.
pub open spec fn orderly<C: TermCursor>(cursor: C, essential: bool, last: int) -> bool {
    cursor.lenient() || cursor.probed() is None || (!essential && cursor.probed()->0 <= last)
}

/// The term indices by ascending ceiling, equal ceilings by ascending index.
fn order_by_ceiling<C: TermCursor>(cursors: &Vec<C>) -> (order: Vec<usize>)
    ensures
        order@ == ascending_order(ceilings(models(cursors@)), cursors@.len()),
{
    let mut order: Vec<usize> = Vec::new();
    let ghost bounds = ceilings(models(cursors@));
    let mut i: usize = 0;
    while i < cursors.len()
        invariant
            i <= cursors.len(),
            bounds == ceilings(models(cursors@)),
            order@ == ascending_order(bounds, i as nat),
        decreases cursors.len() - i,
    {
        proof {
            lemma_order(bounds, i as nat);
            lemma_order_place(bounds, order@, i as int);
            assert(order@.take(order@.len() as int) == order@);
        }
        let bound = cursors[i].upper_bound();
        let mut place: usize = order.len();
        while place > 0 && bound.lt(cursors[order[place - 1]].upper_bound())
            invariant
                i < cursors.len(),
                place <= order.len(),
                bounds == ceilings(models(cursors@)),
                bound == bounds[i as int],
                is_order(order@, i as nat),
                order_place(bounds, order@.take(place as int), i as int) == order_place(
                    bounds,
                    order@,
                    i as int,
                ),
            decreases place,
        {
            proof {
                assert(order@.take(place as int).last() == order@[place - 1]);
                assert(order@.take(place as int).drop_last() == order@.take(place - 1));
            }
            place = place - 1;
        }
        proof {
            if place > 0 {
                assert(order@.take(place as int).last() == order@[place - 1]);
            }
        }
        order.insert(place, i);
        i = i + 1;
    }
    order
}

/// The scan's state between two candidates.
struct Progress {
    top: Vec<RankedDoc>,
    threshold: Binary32,
    stats: MaxscoreStats,
}

impl Progress {
    spec fn state(&self, positions: Seq<nat>) -> ScanState {
        ScanState {
            positions,
            top: self.top@,
            threshold: self.threshold,
            discovered: self.stats.discovered as nat,
            pruned: self.stats.pruned as nat,
            scored: self.stats.scored as nat,
        }
    }

    /// Files a scored document if it is among the best so far.
    fn collect(&mut self, limit: usize, doc: RankedDoc)
        ensures
            (final(self).top@, final(self).threshold) == collected(
                old(self).top@,
                old(self).threshold,
                limit as nat,
                doc,
            ),
            final(self).stats == old(self).stats,
    {
        if self.top.len() < limit {
            proof {
                crate::ranking::lemma_place_range(self.top@, doc);
            }
            file_doc(&mut self.top, doc);
            if self.top.len() == limit {
                self.threshold = self.top[self.top.len() - 1].score;
            }
        } else if self.top.len() > 0 && self.top[self.top.len() - 1].score.lt(doc.score) {
            self.top.pop();
            proof {
                crate::ranking::lemma_place_range(self.top@, doc);
                assert(self.top@ == old(self).top@.drop_last());
            }
            file_doc(&mut self.top, doc);
            self.threshold = self.top[self.top.len() - 1].score;
        }
    }
}

/// How many leading terms are non-essential, and the sum of their ceilings.
fn split_order<C: TermCursor>(
    cursors: &Vec<C>,
    order: &Vec<usize>,
    threshold: Binary32,
    factor: Binary64,
) -> (r: (usize, Binary64))
    requires
        is_order(order@, cursors@.len()),
    ensures
        r.0 == hopeless_prefix(
            picked(ceilings(models(cursors@)), order@),
            threshold,
            factor,
            0,
        ),
        r.0 <= cursors@.len(),
        r.1 == ceiling_total(picked(ceilings(models(cursors@)), order@).take(r.0 as int)),
{
    let ghost bounds = picked(ceilings(models(cursors@)), order@);
    let zero = Binary32::zero();
    let mut cumulative = Binary64::zero();
    let mut boundary: usize = 0;
    while boundary < order.len()
        invariant
            boundary <= order.len(),
            is_order(order@, cursors@.len()),
            bounds == picked(ceilings(models(cursors@)), order@),
            zero == Binary32::zero_spec(),
            cumulative == ceiling_total(bounds.take(boundary as int)),
            hopeless_prefix(bounds, threshold, factor, boundary as nat) == hopeless_prefix(
                bounds,
                threshold,
                factor,
                0,
            ),
        decreases order.len() - boundary,
    {
        let bound = cursors[order[boundary]].upper_bound().widen();
        let wider = cumulative.add(bound);
        proof {
            let more = bounds.take(boundary + 1);
            assert(more.drop_last() == bounds.take(boundary as int));
            assert(more.last() == bounds[boundary as int]);
        }
        if !score_sum_cannot_compete(zero, wider, threshold, factor) {
            return (boundary, cumulative);
        }
        cumulative = wider;
        boundary = boundary + 1;
    }
    (boundary, cumulative)
}

/// The smallest row id at any essential term's cursor, `u64::MAX` if there is none.
fn next_candidate<C: TermCursor>(cursors: &Vec<C>, order: &Vec<usize>, split: usize) -> (row: u64)
    requires
        is_order(order@, cursors@.len()),
        split <= order@.len(),
    ensures
        row == lowest_head(models(cursors@), positions(cursors@), order@.skip(split as int)),
{
    let ghost terms = models(cursors@);
    let ghost ess = order@.skip(split as int);
    let mut low: u64 = u64::MAX;
    let mut j: usize = split;
    while j < order.len()
        invariant
            split <= j <= order.len(),
            is_order(order@, cursors@.len()),
            ess == order@.skip(split as int),
            terms == models(cursors@),
            low == lowest_head(terms, positions(cursors@), ess.take(j - split)),
        decreases order.len() - j,
    {
        let term = order[j];
        proof {
            let more = ess.take(j + 1 - split);
            assert(more.drop_last() == ess.take(j - split));
            assert(more.last() == order@[j as int]);
        }
        if let Some(row) = cursors[term].head() {
            if row < low {
                low = row;
            }
        }
        j = j + 1;
    }
    proof {
        assert(ess.take(j - split) == ess);
    }
    low
}

/// Reads and consumes the candidate at every essential term's cursor. Returns
/// those terms' part of the score, the same without what lowers it, and whether
/// one of them is missing.
#[verifier::rlimit(60)]
fn consume_candidate<C: TermCursor>(
    cursors: &mut Vec<C>,
    order: &Vec<usize>,
    split: usize,
    doc: u64,
    dl: Binary32,
    scorer: &CombinedFieldsBM25Scorer,
    shares: &mut Vec<Binary32>,
    Ghost(input): Ghost<ScanInput>,
    Ghost(s): Ghost<ScanState>,
) -> (r: (Binary32, Binary32, bool))
    requires
        models(old(cursors)@) == input.terms,
        positions(old(cursors)@) == s.positions,
        forall|t: int|
            0 <= t < input.terms.len() && input.essential(s).contains(t as usize) ==> orderly(
                #[trigger] old(cursors)@[t],
                true,
                doc as int,
            ),
        order@ == input.order(),
        split == input.split(s),
        old(shares)@.len() == input.terms.len(),
        dl == (input.lengths)(doc),
        scorer.avg_doc_length == input.avg_doc_length,
    ensures
        models(final(cursors)@) == input.terms,
        positions(final(cursors)@) == input.advanced(s, doc),
        forall|t: int|
            0 <= t < input.terms.len() ==> (#[trigger] final(cursors)@[t]).lenient() == old(
                cursors,
            )@[t].lenient() && final(cursors)@[t].probed() == old(cursors)@[t].probed(),
        final(shares)@.len() == input.terms.len(),
        forall|t: int|
            0 <= t < input.terms.len() && input.essential(s).contains(t as usize)
                ==> #[trigger] final(shares)@[t] == input.parts(s, doc)[t],
        r.0 == total(picked(input.parts(s, doc), input.essential(s))),
        r.1 == total(raised(picked(input.parts(s, doc), input.essential(s)))),
        r.2 <==> exists|j: int|
            split <= j < input.terms.len() && input.tf_read(s, (#[trigger] order@[j]) as int, doc).at_most(
                Binary32::zero_spec(),
            ),
{
    let ghost n = input.terms.len();
    let ghost ess = input.essential(s);
    let ghost parts = input.parts(s, doc);
    let zero = Binary32::zero();
    let mut partial = Binary32::zero();
    let mut high = Binary32::zero();
    let mut missing = false;
    let mut j: usize = split;
    proof {
        assert(models(cursors@).len() == cursors.len());
        input.lemma_split_range(s);
        assert(picked(parts, ess.take(0)).len() == 0);
    }
    while j < order.len()
        invariant
            n == input.terms.len() == cursors@.len() == shares@.len() == order@.len(),
            split <= j <= n,
            is_order(order@, n),
            order@ == input.order(),
            split == input.split(s),
            ess == input.essential(s),
            ess == order@.skip(split as int),
            parts == input.parts(s, doc),
            zero == Binary32::zero_spec(),
            dl == (input.lengths)(doc),
            scorer.avg_doc_length == input.avg_doc_length,
            models(cursors@) == input.terms,
            forall|t: int|
                0 <= t < n && ess.contains(t as usize) ==> orderly(
                    #[trigger] old(cursors)@[t],
                    true,
                    doc as int,
                ),
            forall|t: int|
                0 <= t < n ==> (#[trigger] cursors@[t]).lenient() == old(cursors)@[t].lenient()
                    && cursors@[t].probed() == old(cursors)@[t].probed(),
            forall|k: int|
                split <= k < j ==> #[trigger] shares@[order@[k] as int] == parts[order@[k] as int],
            forall|k: int|
                split <= k < j ==> cursors@[(#[trigger] order@[k]) as int].position()
                    == input.advanced(s, doc)[order@[k] as int],
            forall|t: int|
                0 <= t < n && (forall|k: int| split <= k < j ==> order@[k] != t)
                    ==> (#[trigger] cursors@[t]).position() == s.positions[t],
            partial == total(picked(parts, ess.take(j - split))),
            high == total(raised(picked(parts, ess.take(j - split)))),
            missing <==> exists|k: int|
                split <= k < j && input.tf_read(s, (#[trigger] order@[k]) as int, doc).at_most(
                    Binary32::zero_spec(),
                ),
        decreases n - j,
    {
        let term = order[j];
        let ghost t = term as int;
        proof {
            assert(ess[j - split] == term);
            assert(ess.contains(term));
            assert(cursors@[t].model() == models(cursors@)[t]);
            assert forall|k: int| split <= k < j implies order@[k] != t by {}
            assert(cursors@[t].position() == s.positions[t]);
            assert(orderly(old(cursors)@[t], true, doc as int));
        }
        let ghost before = cursors@;
        let on_doc = match cursors[term].head() {
            Some(row) => row == doc,
            None => false,
        };
        let tf = if on_doc {
            let tf = cursors[term].head_tf();
            cursors[term].consume(doc);
            tf
        } else {
            Binary32::zero()
        };
        proof {
            assert(tf == input.tf_read(s, t, doc));
            assert(cursors@.len() == before.len());
            assert forall|i: int| 0 <= i < n && i != t implies cursors@[i] == before[i] by {}
            assert forall|i: int| 0 <= i < n implies (#[trigger] cursors@[i]).lenient() == old(
                cursors,
            )@[i].lenient() && cursors@[i].probed() == old(cursors)@[i].probed() by {
                assert(before[i].lenient() == old(cursors)@[i].lenient());
            }
            assert(models(cursors@) =~= input.terms) by {
                assert forall|i: int| 0 <= i < n implies models(cursors@)[i] == input.terms[i] by {
                    assert(models(before)[i] == input.terms[i]);
                }
            }
            assert(cursors@[t].position() == input.advanced(s, doc)[t]);
        }
        let was_missing = missing;
        if tf.le(zero) {
            missing = true;
        }
        let part = cursors[term].idf().mul(scorer.doc_weight(tf, dl));
        proof {
            assert(cursors@[t].model() == models(cursors@)[t]);
            assert(part == parts[t]);
            let more = ess.take(j + 1 - split);
            assert(picked(parts, more).drop_last() == picked(parts, ess.take(j - split)));
            assert(raised(picked(parts, more)).drop_last() == raised(
                picked(parts, ess.take(j - split)),
            ));
            assert(picked(parts, more).last() == parts[t]);
        }
        let ghost shares0 = shares@;
        shares.set(term, part);
        partial = partial.add(part);
        high = high.add(
            if part.lt(zero) {
                zero
            } else {
                part
            },
        );
        proof {
            assert forall|k: int| split <= k < j + 1 implies #[trigger] shares@[order@[k] as int]
                == parts[order@[k] as int] by {
                if k < j {
                    assert(order@[k] != order@[j as int]);
                    assert(shares0[order@[k] as int] == parts[order@[k] as int]);
                }
            }
            assert forall|k: int| split <= k < j + 1 implies cursors@[(
            #[trigger] order@[k]) as int].position() == input.advanced(s, doc)[order@[k] as int] by {
                if k < j {
                    assert(order@[k] != order@[j as int]);
                    assert(cursors@[order@[k] as int] == before[order@[k] as int]);
                }
            }
            assert forall|i: int|
                0 <= i < n && (forall|k: int|
                    split <= k < j + 1 ==> order@[k] != i) implies (#[trigger] cursors@[i]).position()
                == s.positions[i] by {
                assert(order@[j as int] != i);
                assert(cursors@[i] == before[i]);
            }
            if missing {
                if was_missing {
                    let k = choose|k: int|
                        split <= k < j && input.tf_read(s, (#[trigger] order@[k]) as int, doc).at_most(
                            Binary32::zero_spec(),
                        );
                    assert(split <= k < j + 1);
                } else {
                    assert(input.tf_read(s, order@[j as int] as int, doc).at_most(
                        Binary32::zero_spec(),
                    ));
                }
            }
        }
        j = j + 1;
    }
    proof {
        assert(ess.take(j - split) == ess);
        assert forall|t: int| 0 <= t < n && ess.contains(t as usize) implies #[trigger] shares@[t]
            == parts[t] by {
            let k = choose|k: int| 0 <= k < ess.len() && ess[k] == t as usize;
            assert(order@[split + k] == t);
        }
        assert(positions(cursors@) =~= input.advanced(s, doc)) by {
            assert forall|t: int| 0 <= t < n implies positions(cursors@)[t] == input.advanced(
                s,
                doc,
            )[t] by {
                if exists|k: int| split <= k < n && order@[k] == t {
                    let k = choose|k: int| split <= k < n && order@[k] == t;
                    assert(cursors@[order@[k] as int].position() == input.advanced(s, doc)[t]);
                } else {
                    assert(cursors@[t].position() == s.positions[t]);
                    if ess.contains(t as usize) {
                        let k = choose|k: int| 0 <= k < ess.len() && ess[k] == t as usize;
                        assert(order@[split + k] == t);
                    }
                }
            }
        }
    }
    (partial, high, missing)
}

/// Probes the non-essential terms at the candidate. Returns whether one of them
/// is missing.
#[verifier::rlimit(60)]
fn probe_candidate<C: TermCursor>(
    cursors: &mut Vec<C>,
    order: &Vec<usize>,
    split: usize,
    doc: u64,
    dl: Binary32,
    scorer: &CombinedFieldsBM25Scorer,
    shares: &mut Vec<Binary32>,
    Ghost(input): Ghost<ScanInput>,
    Ghost(s): Ghost<ScanState>,
) -> (missing: bool)
    requires
        models(old(cursors)@) == input.terms,
        forall|t: int|
            0 <= t < input.terms.len() ==> ascending((#[trigger] input.terms[t]).postings),
        forall|t: int|
            0 <= t < input.terms.len() && !input.essential(s).contains(t as usize) ==> orderly(
                #[trigger] old(cursors)@[t],
                false,
                doc as int,
            ),
        order@ == input.order(),
        split == input.split(s),
        old(shares)@.len() == input.terms.len(),
        dl == (input.lengths)(doc),
        scorer.avg_doc_length == input.avg_doc_length,
    ensures
        models(final(cursors)@) == input.terms,
        positions(final(cursors)@) == positions(old(cursors)@),
        forall|t: int|
            0 <= t < input.terms.len() ==> orderly(
                #[trigger] final(cursors)@[t],
                false,
                doc as int,
            ) || input.essential(s).contains(t as usize),
        forall|t: int|
            0 <= t < input.terms.len() && input.essential(s).contains(t as usize)
                ==> #[trigger] final(cursors)@[t] == old(cursors)@[t],
        final(shares)@.len() == input.terms.len(),
        forall|t: int|
            0 <= t < input.terms.len() ==> #[trigger] final(shares)@[t] == (
            if input.essential(s).contains(t as usize) {
                old(shares)@[t]
            } else {
                input.parts(s, doc)[t]
            }),
        missing <==> exists|j: int|
            0 <= j < split && input.tf_read(s, (#[trigger] order@[j]) as int, doc).at_most(
                Binary32::zero_spec(),
            ),
{
    let ghost n = input.terms.len();
    let ghost ess = input.essential(s);
    let ghost parts = input.parts(s, doc);
    let ghost before = positions(cursors@);
    let ghost shares0 = shares@;
    let zero = Binary32::zero();
    let mut missing = false;
    let mut j: usize = 0;
    proof {
        assert(models(cursors@).len() == cursors.len());
        input.lemma_split_range(s);
    }
    while j < split
        invariant
            n == input.terms.len() == cursors@.len() == shares@.len() == order@.len(),
            shares0.len() == n,
            j <= split <= n,
            is_order(order@, n),
            order@ == input.order(),
            split == input.split(s),
            ess == input.essential(s),
            ess == order@.skip(split as int),
            parts == input.parts(s, doc),
            zero == Binary32::zero_spec(),
            dl == (input.lengths)(doc),
            scorer.avg_doc_length == input.avg_doc_length,
            models(cursors@) == input.terms,
            positions(cursors@) == before,
            forall|t: int|
                0 <= t < input.terms.len() ==> ascending((#[trigger] input.terms[t]).postings),
            forall|t: int|
                0 <= t < n && !ess.contains(t as usize) ==> orderly(
                    #[trigger] cursors@[t],
                    false,
                    doc as int,
                ),
            forall|t: int|
                0 <= t < n && ess.contains(t as usize) ==> #[trigger] cursors@[t] == old(
                    cursors,
                )@[t],
            forall|k: int|
                0 <= k < j ==> #[trigger] shares@[order@[k] as int] == parts[order@[k] as int],
            forall|t: int|
                0 <= t < n && (forall|k: int| 0 <= k < j ==> order@[k] != t)
                    ==> (#[trigger] shares@[t]) == shares0[t],
            missing <==> exists|k: int|
                0 <= k < j && input.tf_read(s, (#[trigger] order@[k]) as int, doc).at_most(
                    Binary32::zero_spec(),
                ),
        decreases split - j,
    {
        let term = order[j];
        let ghost t = term as int;
        let ghost cursors0 = cursors@;
        proof {
            assert(cursors@[t].model() == models(cursors@)[t]);
            assert(ascending(input.terms[t].postings));
            assert(!ess.contains(term)) by {
                if ess.contains(term) {
                    let k = choose|k: int| 0 <= k < ess.len() && ess[k] == term;
                    assert(order@[split + k] == order@[j as int]);
                }
            }
        }
        proof {
            assert(orderly(cursors@[t], false, doc as int));
        }
        let tf = cursors[term].probe(doc);
        proof {
            assert forall|i: int| 0 <= i < n && !ess.contains(i as usize) implies orderly(
                #[trigger] cursors@[i],
                false,
                doc as int,
            ) by {
                if i != t {
                    assert(cursors@[i] == cursors0[i]);
                }
            }
            assert forall|i: int| 0 <= i < n && ess.contains(i as usize) implies (
            #[trigger] cursors@[i]) == old(cursors)@[i] by {
                assert(cursors@[i] == cursors0[i]);
            }
            assert(models(cursors@) =~= input.terms) by {
                assert forall|i: int| 0 <= i < n implies models(cursors@)[i] == input.terms[i] by {
                    assert(models(cursors0)[i] == input.terms[i]);
                }
            }
            assert(positions(cursors@) =~= before) by {
                assert forall|i: int| 0 <= i < n implies positions(cursors@)[i] == before[i] by {
                    assert(positions(cursors0)[i] == before[i]);
                }
            }
            assert(tf == input.tf_read(s, t, doc));
        }
        let was_missing = missing;
        if tf.le(zero) {
            missing = true;
        }
        let part = cursors[term].idf().mul(scorer.doc_weight(tf, dl));
        let ghost shares1 = shares@;
        proof {
            assert(cursors@[t].model() == models(cursors@)[t]);
            assert(part == parts[t]);
        }
        shares.set(term, part);
        proof {
            assert forall|k: int| 0 <= k < j + 1 implies #[trigger] shares@[order@[k] as int]
                == parts[order@[k] as int] by {
                if k < j {
                    assert(order@[k] != order@[j as int]);
                    assert(shares1[order@[k] as int] == parts[order@[k] as int]);
                }
            }
            assert forall|i: int|
                0 <= i < n && (forall|k: int| 0 <= k < j + 1 ==> order@[k] != i) implies (
            #[trigger] shares@[i]) == shares0[i] by {
                assert(order@[j as int] != i);
                assert(shares1[i] == shares0[i]);
            }
            if missing {
                if was_missing {
                    let k = choose|k: int|
                        0 <= k < j && input.tf_read(s, (#[trigger] order@[k]) as int, doc).at_most(
                            Binary32::zero_spec(),
                        );
                    assert(0 <= k < j + 1);
                } else {
                    assert(input.tf_read(s, order@[j as int] as int, doc).at_most(
                        Binary32::zero_spec(),
                    ));
                }
            }
        }
        j = j + 1;
    }
    proof {
        assert forall|t: int| 0 <= t < n implies #[trigger] shares@[t] == (if ess.contains(
            t as usize,
        ) {
            shares0[t]
        } else {
            parts[t]
        }) by {
            assert(order@.contains(t as usize));
            let k = choose|k: int| 0 <= k < n && order@[k] == t as usize;
            if k < split {
                assert(shares@[order@[k] as int] == parts[t]);
                if ess.contains(t as usize) {
                    let i = choose|i: int| 0 <= i < ess.len() && ess[i] == t as usize;
                    assert(order@[split + i] == order@[k]);
                }
            } else {
                assert(ess[k - split] == t as usize);
            }
        }
    }
    missing
}

/// Adds the terms' parts of a score in their given order.
fn sum_shares(shares: &Vec<Binary32>) -> (score: Binary32)
    ensures
        score == total(shares@),
{
    let mut score = Binary32::zero();
    let mut i: usize = 0;
    while i < shares.len()
        invariant
            i <= shares.len(),
            score == total(shares@.take(i as int)),
        decreases shares.len() - i,
    {
        proof {
            assert(shares@.take(i + 1).drop_last() == shares@.take(i as int));
            assert(shares@.take(i + 1).last() == shares@[i as int]);
        }
        score = score.add(shares[i]);
        i = i + 1;
    }
    proof {
        assert(shares@.take(shares@.len() as int) == shares@);
    }
    score
}

/// Term-at-a-time MAXSCORE over the merged postings.
///
/// Terms are ordered by ascending ceiling. Once `limit` documents are kept, the
/// leading terms whose ceilings together cannot beat the score of the last of
/// them (the threshold) become non-essential: candidates are pulled from the
/// other terms' cursors alone, and one is skipped whole when what the essential
/// terms give it and the non-essential ceilings still cannot beat the threshold.
/// One that a term with a negative weight lowers is looked at twice, for a bound
/// on a sum of both signs is not sure. Every other candidate is scored exactly,
/// its parts added in the terms' given order.
///
/// Every cursor is called in order, so one that can only move forward will do.
///
/// Returns the documents kept, best first, and what the scan did. On regular
/// terms with fresh cursors the documents are the best of all matches by their
/// exact scores, if these are numbers, so that skipping changes nothing.
#[verifier::rlimit(60)]
pub fn combined_maxscore<C: TermCursor, L: DocumentLengths>(
    cursors: &mut Vec<C>,
    lengths: &L,
    limit: usize,
    require_all_terms: bool,
    scorer: &CombinedFieldsBM25Scorer,
) -> (r: (Vec<RankedDoc>, MaxscoreStats))
    requires
        forall|i: int| 0 <= i < old(cursors)@.len() ==> (#[trigger] old(
            cursors,
        )@[i]).model().well_formed(),
        forall|i: int|
            0 <= i < old(cursors)@.len() ==> orderly(#[trigger] old(cursors)@[i], true, -1),
    ensures
        ({
            let end = scan_input(old(cursors)@, lengths, limit, require_all_terms, scorer).run(
                ScanInput::start(positions(old(cursors)@)),
            );
            &&& r.0@ == end.top
            &&& r.1.discovered == end.discovered
            &&& r.1.pruned == end.pruned
            &&& r.1.scored == end.scored
            &&& positions(final(cursors)@) == end.positions
        }),
        models(final(cursors)@) == models(old(cursors)@),
        regular(models(old(cursors)@)) && numeric_scores(
            scan_input(old(cursors)@, lengths, limit, require_all_terms, scorer),
        ) && (forall|t: int|
            0 <= t < old(cursors)@.len() ==> #[trigger] positions(old(cursors)@)[t] == 0)
            ==> is_top_k(
            r.0@,
            matching(models(old(cursors)@), require_all_terms),
            scoring(models(old(cursors)@), scorer.avg_doc_length, lengths_of(lengths)),
            limit as nat,
        ),
{
    let ghost input = scan_input(old(cursors)@, lengths, limit, require_all_terms, scorer);
    let ghost n = input.terms.len();
    let order = order_by_ceiling(cursors);
    let factor = score_sum_upper_bound_factor(cursors.len());
    let mut progress = Progress {
        top: Vec::new(),
        threshold: Binary32::from_bits(0xff80_0000),
        stats: MaxscoreStats::default(),
    };
    let mut shares: Vec<Binary32> = Vec::new();
    while shares.len() < cursors.len()
        invariant
            shares.len() <= cursors.len(),
        decreases cursors.len() - shares.len(),
    {
        shares.push(Binary32::zero());
    }
    proof {
        assert(models(cursors@).len() == cursors.len());
        lemma_order(ceilings(input.terms), n);
        assert forall|t: int| 0 <= t < n implies ascending((#[trigger] input.terms[t]).postings) by {
            assert(old(cursors)@[t].model().well_formed());
        }
        lemma_start_ahead(input, positions(old(cursors)@));
        assert(progress.state(positions(cursors@)) == ScanInput::start(positions(old(cursors)@)));
    }
    let ghost mut last: int = -1;
    loop
        invariant
            n == input.terms.len() == cursors@.len() == shares@.len() == order@.len(),
            n <= usize::MAX,
            input == scan_input(old(cursors)@, lengths, limit, require_all_terms, scorer),
            order@ == input.order(),
            is_order(order@, n),
            factor == sum_factor(n),
            models(cursors@) == input.terms,
            ahead(input, progress.state(positions(cursors@)), last),
            -1 <= last < u64::MAX,
            forall|t: int|
                0 <= t < n ==> orderly(
                    #[trigger] cursors@[t],
                    input.essential(progress.state(positions(cursors@))).contains(t as usize),
                    last,
                ),
            input.run(progress.state(positions(cursors@))) == input.run(
                ScanInput::start(positions(old(cursors)@)),
            ),
            progress.stats.discovered <= last + 1,
            progress.stats.pruned <= progress.stats.discovered,
            progress.stats.scored <= progress.stats.discovered,
        decreases input.remaining(positions(cursors@), n),
    {
        let ghost s = progress.state(positions(cursors@));
        proof {
            input.lemma_split_range(s);
            assert(ceilings(models(cursors@)) == ceilings(input.terms));
            assert(positions(cursors@).len() == n);
        }
        let full = progress.top.len() >= limit;
        let (split, rest) = if full {
            split_order(cursors, &order, progress.threshold, factor)
        } else {
            proof {
                assert(input.ordered_ceilings().take(0).len() == 0);
            }
            (0, Binary64::zero())
        };
        let doc = next_candidate(cursors, &order, split);
        if doc == u64::MAX {
            proof {
                let fresh = positions(old(cursors)@);
                if regular(input.terms) && numeric_scores(input) && (forall|t: int|
                    0 <= t < old(cursors)@.len() ==> #[trigger] fresh[t] == 0) {
                    law_maxscore_is_exact(input, fresh);
                }
            }
            return (progress.top, progress.stats);
        }
        proof {
            input.lemma_step_consumes(s);
            lemma_step_ahead(input, s, last);
            last = doc as int;
        }
        let ghost cursors0 = cursors@;
        progress.stats.discovered = progress.stats.discovered + 1;
        let dl = lengths.dl_prime(doc);
        proof {
            assert(dl == lengths_of(lengths)(doc));
        }
        let (partial, high, missing_essential) = consume_candidate(
            cursors,
            &order,
            split,
            doc,
            dl,
            scorer,
            &mut shares,
            Ghost(input),
            Ghost(s),
        );
        proof {
            assert forall|t: int| 0 <= t < n implies orderly(
                #[trigger] cursors@[t],
                input.essential(s).contains(t as usize),
                last,
            ) by {
                assert(orderly(cursors0[t], input.essential(s).contains(t as usize), last));
            }
        }
        proof {
            if split == 0 {
                assert(input.essential(s) =~= input.order());
                assert forall|t: int| 0 <= t < n implies shares@[t] == input.parts(
                    s,
                    doc,
                )[t] by {
                    assert(input.order().contains(t as usize));
                }
                assert(shares@ =~= input.parts(s, doc));
            }
        }
        let hopeless = full && score_sum_cannot_compete(partial, rest, progress.threshold, factor)
            && (score_sum_cannot_compete(high, rest, progress.threshold, factor) || (split == 0
            && sum_shares(&shares).le(progress.threshold)));
        if hopeless {
            progress.stats.pruned = progress.stats.pruned + 1;
            proof {
                assert(progress.state(positions(cursors@)) == input.step(s));
            }
            continue ;
        }
        let missing_other = probe_candidate(
            cursors,
            &order,
            split,
            doc,
            dl,
            scorer,
            &mut shares,
            Ghost(input),
            Ghost(s),
        );
        proof {
            lemma_missing(input, s, doc);
        }
        if require_all_terms && (missing_essential || missing_other) {
            proof {
                assert(progress.state(positions(cursors@)) == input.step(s));
            }
            continue ;
        }
        progress.stats.scored = progress.stats.scored + 1;
        proof {
            assert(shares@ =~= input.parts(s, doc));
        }
        let score = sum_shares(&shares);
        progress.collect(limit, RankedDoc::new(doc, score));
        proof {
            assert(progress.state(positions(cursors@)) == input.step(s));
        }
    }
}

/// What a scan over some cursors is given.
pub open spec fn scan_input<C: TermCursor, L: DocumentLengths>(
    cursors: Seq<C>,
    lengths: &L,
    limit: usize,
    require_all: bool,
    scorer: &CombinedFieldsBM25Scorer,
) -> ScanInput {
    ScanInput {
        terms: models(cursors),
        lengths: lengths_of(lengths),
        avg_doc_length: scorer.avg_doc_length,
        limit: limit as nat,
        require_all,
    }
}

/// A term is missing exactly if one is among those on either side of the split.
proof fn lemma_missing(input: ScanInput, s: ScanState, doc: u64)
    requires
        input.terms.len() <= usize::MAX,
    ensures
        input.lacks_term(s, doc) <==> exists|j: int|
            0 <= j < input.terms.len() && input.tf_read(
                s,
                (#[trigger] input.order()[j]) as int,
                doc,
            ).at_most(Binary32::zero_spec()),
{
    input.lemma_split_range(s);
    if input.lacks_term(s, doc) {
        let t = choose|t: int|
            0 <= t < input.terms.len() && (#[trigger] input.tf_read(s, t, doc)).at_most(
                Binary32::zero_spec(),
            );
        assert(input.order().contains(t as usize));
        let j = choose|j: int| 0 <= j < input.terms.len() && input.order()[j] == t as usize;
        assert(input.tf_read(s, input.order()[j] as int, doc).at_most(Binary32::zero_spec()));
    }
}

/// The ceiling of a term that can raise scores is its weight times the largest
/// weight that a document can have; that of any other is zero.
pub proof fn law_ceiling_value(idf: Binary32)
    ensures
        idf.key() > 0 && !idf.is_nan_spec() ==> ceiling_of(idf) == idf.times(
            Binary32 { bits: 0x400c_ccd1 },
        ),
        idf.key() <= 0 || idf.is_nan_spec() ==> ceiling_of(idf).bits == 0,
{
}

/// A cursor sits on the first posting that is not consumed.
pub proof fn law_head_is_next_posting(term: TermModel, position: nat)
    ensures
        position < term.postings.len() ==> term.head_at(position) == Some(
            term.postings[position as int].0,
        ),
        position >= term.postings.len() ==> term.head_at(position) is None,
{
}

/// A scan is given the cursors' terms, the lengths and the mean length as they are.
pub proof fn law_scan_reads_its_input<C: TermCursor, L: DocumentLengths>(
    cursors: Seq<C>,
    lengths: &L,
    limit: usize,
    require_all: bool,
    scorer: &CombinedFieldsBM25Scorer,
    t: int,
    row: u64,
)
    requires
        0 <= t < cursors.len(),
    ensures
        ({
            let input = scan_input(cursors, lengths, limit, require_all, scorer);
            &&& input.terms.len() == cursors.len()
            &&& input.terms[t] == cursors[t].model()
            &&& positions(cursors).len() == cursors.len()
            &&& positions(cursors)[t] == cursors[t].position()
            &&& (input.lengths)(row) == lengths.length_spec(row)
            &&& input.avg_doc_length == scorer.avg_doc_length
            &&& input.limit == limit
            &&& input.require_all == require_all
        }),
{
}

/// A full-read cursor stands for its merged postings, all of them.
pub proof fn law_full_read_cursor(term: MaterializedTerm)
    ensures
        term.model().idf == term.postings.idf,
        term.model().ceiling == term.postings.upper_bound,
        term.model().postings == term.postings.postings@,
        term.position() == term.cursor,
{
}

/// What a step counts and consumes: one more candidate, which is skipped, or scored,
/// or, where all terms are required, dropped; and of each essential term the
/// posting at the candidate's row if its cursor sits there.
pub proof fn law_step_counts_one_candidate(input: ScanInput, s: ScanState)
    requires
        s.positions.len() == input.terms.len(),
    ensures
        ({
            let (s2, row) = (input.step(s), input.next(s));
            &&& s2.discovered == s.discovered + 1
            &&& (s2.pruned == s.pruned + 1 && s2.scored == s.scored) || (s2.pruned == s.pruned
                && s2.scored == s.scored + 1) || (input.require_all && s2.pruned == s.pruned
                && s2.scored == s.scored)
            &&& s2.scored == s.scored ==> s2.top == s.top && s2.threshold == s.threshold
            &&& s2.pruned > s.pruned ==> s.top.len() >= input.limit
            &&& s2.positions.len() == s.positions.len()
            &&& forall|t: int|
                0 <= t < s.positions.len() ==> #[trigger] s2.positions[t] == (
                if input.essential(s).contains(t as usize) && s.positions[t]
                    < input.terms[t].postings.len()
                    && input.terms[t].postings[s.positions[t] as int].0 == row {
                    s.positions[t] + 1
                } else {
                    s.positions[t]
                })
        }),
{
}

/// A candidate is skipped only if what its essential terms give it, each its weight
/// times the document's weight, and the ceilings of the others cannot beat the
/// threshold.
pub proof fn law_skipped_candidates_cannot_compete(input: ScanInput, s: ScanState, row: u64)
    requires
        input.terms.len() <= usize::MAX,
        input.hopeless(s, row),
    ensures
        ({
            let products = Seq::new(
                input.terms.len(),
                |t: int|
                    input.terms[t].idf.times(
                        bm25_weight(
                            input.avg_doc_length,
                            input.tf_read(s, t, row),
                            (input.lengths)(row),
                        ),
                    ),
            );
            let split = input.split(s) as int;
            &&& s.top.len() >= input.limit
            &&& cannot_compete(
                total(picked(products, input.order().skip(split))),
                ceiling_total(
                    picked(
                        Seq::new(input.terms.len(), |t: int| input.terms[t].ceiling),
                        input.order(),
                    ).take(split),
                ),
                s.threshold,
                sum_factor(input.terms.len()),
            )
        }),
{
    let products = Seq::new(
        input.terms.len(),
        |t: int|
            input.terms[t].idf.times(
                bm25_weight(
                    input.avg_doc_length,
                    input.tf_read(s, t, row),
                    (input.lengths)(row),
                ),
            ),
    );
    assert(input.parts(s, row) =~= products);
}

} // verus!
