//! Per-term cursors over postings that are merged across columns.
use crate::binary::Binary32;
use crate::documents::live_posting_rows;
use crate::documents::live_rows;
use crate::documents::AddressKeyedDocuments;
use crate::documents::PostingList;
use crate::documents::TOMBSTONE_ROW;
use crate::mask::selected_rows;
use crate::maxscore::ceiling_of;
use crate::maxscore::term_upper_bound;
use crate::scorer::listed_weight;
use crate::scorer::CombinedFieldsBM25Scorer;
use lance_select::RowAddrMask;
use std::collections::BTreeMap;
use vstd::prelude::*;

verus! {

/// What a scan can learn about a term: its weight, the most it can add to a
/// score, and the blended frequency at each row that holds it.
pub struct TermModel {
    pub idf: Binary32,
    pub ceiling: Binary32,
    pub postings: Seq<(u64, Binary32)>,
}

/// Rows that ascend, so that none occurs twice.
pub open spec fn ascending(postings: Seq<(u64, Binary32)>) -> bool {
    forall|i: int, j: int| 0 <= i < j < postings.len() ==> postings[i].0 < postings[j].0
}

/// Whether some entry is for `row`.
pub open spec fn has_row(postings: Seq<(u64, Binary32)>, row: u64) -> bool {
    exists|i: int| 0 <= i < postings.len() && (#[trigger] postings[i]).0 == row
}

/// The blended frequency at `row`, zero if there is no entry for it.
pub open spec fn tf_at(postings: Seq<(u64, Binary32)>, row: u64) -> Binary32 {
    if has_row(postings, row) {
        postings[choose|i: int| 0 <= i < postings.len() && (#[trigger] postings[i]).0 == row].1
    } else {
        Binary32::zero_spec()
    }
}

/// In ascending postings the frequency at a row is that of its entry.
pub proof fn lemma_tf_at(postings: Seq<(u64, Binary32)>, i: int)
    requires
        ascending(postings),
        0 <= i < postings.len(),
    ensures
        has_row(postings, postings[i].0),
        tf_at(postings, postings[i].0) == postings[i].1,
{
    let row = postings[i].0;
    assert(has_row(postings, row));
    let j = choose|j: int| 0 <= j < postings.len() && (#[trigger] postings[j]).0 == row;
    assert(!(i < j) && !(j < i));
}

impl TermModel {
    /// Postings ascend and the ceiling is a number.
    pub open spec fn well_formed(self) -> bool {
        ascending(self.postings) && !self.ceiling.is_nan_spec()
    }

    /// The row that a cursor at `position` sits on.
    pub open spec fn head_at(self, position: nat) -> Option<u64> {
        if position < self.postings.len() {
            Some(self.postings[position as int].0)
        } else {
            None
        }
    }
}

/// The scan's view of one query term: a merged cursor over ascending row ids,
/// however the frequencies are fetched.
///
/// A scan calls a cursor in order. It reads and consumes the head only, then,
/// from some point on, it only probes, at rows that never descend. A cursor can
/// rely on that and skip forward, unless it is lenient.
pub trait TermCursor {
    /// The term.
    spec fn model(&self) -> TermModel;

    /// How many postings are consumed.
    spec fn position(&self) -> nat;

    /// The row that was probed last.
    spec fn probed(&self) -> Option<u64>;

    /// Whether calls out of order are answered too.
    spec fn lenient(&self) -> bool;

    /// The most that the term can add to a score.
    fn upper_bound(&self) -> (r: Binary32)
        ensures
            r == self.model().ceiling,
    ;

    /// The blended inverse document frequency.
    fn idf(&self) -> (r: Binary32)
        ensures
            r == self.model().idf,
    ;

    /// The smallest row id not consumed yet, `None` when the term is exhausted.
    fn head(&self) -> (r: Option<u64>)
        ensures
            r == self.model().head_at(self.position()),
    ;

    /// The blended frequency at the head.
    fn head_tf(&self) -> (r: Binary32)
        requires
            self.lenient() || self.position() < self.model().postings.len(),
        ensures
            r == (if self.position() < self.model().postings.len() {
                self.model().postings[self.position() as int].1
            } else {
                Binary32::zero_spec()
            }),
    ;

    /// Consumes `row_id` if it is the head.
    fn consume(&mut self, row_id: u64)
        requires
            old(self).lenient() || old(self).probed() is None && old(self).model().head_at(
                old(self).position(),
            ) == Some(row_id),
        ensures
            final(self).model() == old(self).model(),
            final(self).probed() == old(self).probed(),
            final(self).lenient() == old(self).lenient(),
            final(self).position() == (if old(self).model().head_at(old(self).position()) == Some(
                row_id,
            ) {
                old(self).position() + 1
            } else {
                old(self).position()
            }),
    ;

    /// The blended frequency at `target`, zero where the term is absent.
    fn probe(&mut self, target: u64) -> (r: Binary32)
        requires
            ascending(old(self).model().postings),
            old(self).lenient() || (old(self).probed() matches Some(row) ==> row <= target),
        ensures
            r == tf_at(old(self).model().postings, target),
            final(self).model() == old(self).model(),
            final(self).position() == old(self).position(),
            old(self).lenient() || final(self).probed() == Some(target),
            final(self).lenient() == old(self).lenient(),
    ;
}

/// One query term's postings, merged across every target column and partition.
///
/// Entries are unique row ids in ascending order, each with the blended term
/// frequency: the sum over the columns of their weight times their frequency.
pub struct CombinedTermPostings {
    pub idf: Binary32,
    pub upper_bound: Binary32,
    pub postings: Vec<(u64, Binary32)>,
}

impl CombinedTermPostings {
    /// The term.
    pub open spec fn model(&self) -> TermModel {
        TermModel { idf: self.idf, ceiling: self.upper_bound, postings: self.postings@ }
    }

    /// The blended frequency at `row_id`, zero when the term does not occur there.
    pub fn tf_prime(&self, row_id: u64) -> (tf: Binary32)
        requires
            ascending(self.postings@),
        ensures
            tf == tf_at(self.postings@, row_id),
    {
        let mut low: usize = 0;
        let mut high: usize = self.postings.len();
        while low < high
            invariant
                ascending(self.postings@),
                low <= high <= self.postings.len(),
                forall|i: int| 0 <= i < low ==> (#[trigger] self.postings@[i]).0 < row_id,
                forall|i: int|
                    high <= i < self.postings.len() ==> row_id < (#[trigger] self.postings@[i]).0,
            decreases high - low,
        {
            let mid = low + (high - low) / 2;
            let (id, tf) = self.postings[mid];
            if id == row_id {
                proof {
                    lemma_tf_at(self.postings@, mid as int);
                }
                return tf;
            } else if id < row_id {
                low = mid + 1;
            } else {
                high = mid;
            }
        }
        Binary32::zero()
    }
}

/// A [`TermCursor`] that reads every posting up front.
pub struct MaterializedTerm {
    pub postings: CombinedTermPostings,
    pub cursor: usize,
}

impl MaterializedTerm {
    /// A cursor before the first posting.
    pub fn new(postings: CombinedTermPostings) -> (r: Self)
        ensures
            r.postings == postings,
            r.position() == 0,
    {
        MaterializedTerm { postings, cursor: 0 }
    }
}

impl TermCursor for MaterializedTerm {
    open spec fn model(&self) -> TermModel {
        self.postings.model()
    }

    open spec fn position(&self) -> nat {
        self.cursor as nat
    }

    open spec fn probed(&self) -> Option<u64> {
        None
    }

    open spec fn lenient(&self) -> bool {
        true
    }

    fn upper_bound(&self) -> Binary32 {
        self.postings.upper_bound
    }

    fn idf(&self) -> Binary32 {
        self.postings.idf
    }

    fn head(&self) -> Option<u64> {
        if self.cursor < self.postings.postings.len() {
            Some(self.postings.postings[self.cursor].0)
        } else {
            None
        }
    }

    fn head_tf(&self) -> Binary32 {
        if self.cursor < self.postings.postings.len() {
            self.postings.postings[self.cursor].1
        } else {
            Binary32::zero()
        }
    }

    fn consume(&mut self, row_id: u64) {
        if self.cursor < self.postings.postings.len() && self.postings.postings[self.cursor].0
            == row_id {
            self.cursor = self.cursor + 1;
        }
    }

    fn probe(&mut self, target: u64) -> Binary32 {
        self.postings.tf_prime(target)
    }
}

/// One partition's posting list for one term, with the weight of its column.
pub struct LoadedSource<'a> {
    pub weight: Binary32,
    pub docs: &'a AddressKeyedDocuments,
    pub is_legacy: bool,
    pub posting: &'a PostingList,
}

/// What the selected ones of some rows add to the blended frequency.
pub open spec fn weighted_rows(
    rows: Seq<(u64, u32)>,
    selected: Set<u64>,
    weight: Binary32,
) -> Seq<(u64, Binary32)>
    decreases rows.len(),
{
    if rows.len() == 0 {
        Seq::empty()
    } else {
        let before = weighted_rows(rows.drop_last(), selected, weight);
        let (row, frequency) = rows.last();
        if selected.contains(row) {
            before.push((row, weight.times(Binary32::of_count(frequency))))
        } else {
            before
        }
    }
}

/// What the sources add to the blended frequency of a term, source by source.
pub open spec fn contributions(sources: Seq<LoadedSource>, selected: Set<u64>) -> Seq<
    (u64, Binary32),
>
    decreases sources.len(),
{
    if sources.len() == 0 {
        Seq::empty()
    } else {
        let s = sources.last();
        contributions(sources.drop_last(), selected) + weighted_rows(
            live_rows(s.posting, s.docs, s.is_legacy, s.posting.len_spec()),
            selected,
            s.weight,
        )
    }
}

/// The contributions to `row`, added up in their order.
pub open spec fn blended_tf(parts: Seq<(u64, Binary32)>, row: u64) -> Binary32
    decreases parts.len(),
{
    if parts.len() == 0 {
        Binary32::zero_spec()
    } else if parts.last().0 == row {
        blended_tf(parts.drop_last(), row).plus(parts.last().1)
    } else {
        blended_tf(parts.drop_last(), row)
    }
}

/// The same contributions with one entry per row, in ascending order.
pub open spec fn merges(postings: Seq<(u64, Binary32)>, parts: Seq<(u64, Binary32)>) -> bool {
    &&& ascending(postings)
    &&& forall|row: u64| #[trigger] has_row(postings, row) <==> has_row(parts, row)
    &&& forall|i: int|
        0 <= i < postings.len() ==> (#[trigger] postings[i]).1 == blended_tf(parts, postings[i].0)
}

/// The merged contributions.
pub open spec fn merged(parts: Seq<(u64, Binary32)>) -> Seq<(u64, Binary32)> {
    choose|postings: Seq<(u64, Binary32)>| merges(postings, parts)
}

/// The term that some sources make up.
pub open spec fn term_of(
    idf: Binary32,
    sources: Seq<LoadedSource>,
    selected: Set<u64>,
) -> TermModel {
    TermModel {
        idf,
        ceiling: ceiling_of(idf),
        postings: merged(contributions(sources, selected)),
    }
}

/// Contributions can be merged in one way only.
pub proof fn lemma_merges_unique(
    a: Seq<(u64, Binary32)>,
    b: Seq<(u64, Binary32)>,
    parts: Seq<(u64, Binary32)>,
)
    requires
        merges(a, parts),
        merges(b, parts),
    ensures
        a == b,
{
    lemma_same_rows(a, b);
    assert forall|i: int| 0 <= i < a.len() implies a[i] == b[i] by {
        assert(a[i].0 == b[i].0);
    }
    assert(a =~= b);
}

/// Ascending rows are determined by which they are.
proof fn lemma_same_rows(a: Seq<(u64, Binary32)>, b: Seq<(u64, Binary32)>)
    requires
        ascending(a),
        ascending(b),
        forall|row: u64| #[trigger] has_row(a, row) <==> has_row(b, row),
    ensures
        a.len() == b.len(),
        forall|i: int| 0 <= i < a.len() ==> (#[trigger] a[i]).0 == b[i].0,
    decreases a.len(),
{
    if a.len() > 0 {
        assert(has_row(a, a[0].0));
        assert(has_row(b, a[0].0));
    }
    if b.len() > 0 {
        assert(has_row(b, b[0].0));
        assert(has_row(a, b[0].0));
    }
    if a.len() > 0 && b.len() > 0 {
        let (i, j) = (a.len() - 1, b.len() - 1);
        assert(a[i].0 == b[j].0) by {
            assert(has_row(a, a[i].0));
            assert(has_row(b, b[j].0));
            assert(has_row(b, a[i].0));
            assert(has_row(a, b[j].0));
            let p = choose|p: int| 0 <= p < b.len() && (#[trigger] b[p]).0 == a[i].0;
            let q = choose|q: int| 0 <= q < a.len() && (#[trigger] a[q]).0 == b[j].0;
            if p < j && q < i {
                assert(b[p].0 < b[j].0);
                assert(a[q].0 < a[i].0);
            }
        }
        let (a1, b1) = (a.drop_last(), b.drop_last());
        assert forall|row: u64| #[trigger] has_row(a1, row) <==> has_row(b1, row) by {
            lemma_row_before_last(a, row);
            lemma_row_before_last(b, row);
            assert(has_row(a, row) <==> has_row(b, row));
        }
        lemma_same_rows(a1, b1);
        assert forall|k: int| 0 <= k < a.len() implies (#[trigger] a[k]).0 == b[k].0 by {
            if k < a1.len() {
                assert(a1[k].0 == b1[k].0);
            }
        }
    }
}

proof fn lemma_row_before_last(a: Seq<(u64, Binary32)>, row: u64)
    requires
        ascending(a),
        a.len() > 0,
    ensures
        has_row(a.drop_last(), row) <==> has_row(a, row) && row != a.last().0,
{
    let init = a.drop_last();
    if has_row(init, row) {
        let k = choose|k: int| 0 <= k < init.len() && (#[trigger] init[k]).0 == row;
        assert(a[k].0 == row);
        assert(a[k].0 < a[a.len() - 1].0);
    }
    if has_row(a, row) && row != a.last().0 {
        let k = choose|k: int| 0 <= k < a.len() && (#[trigger] a[k]).0 == row;
        assert(init[k].0 == row);
    }
}

/// What merged contributions hold.
pub proof fn lemma_merged(parts: Seq<(u64, Binary32)>)
    ensures
        merges(merged(parts), parts),
        forall|row: u64| #[trigger] tf_at(merged(parts), row) == blended_tf(parts, row),
{
    lemma_can_merge(parts);
    let all = merged(parts);
    assert forall|row: u64| #[trigger] tf_at(all, row) == blended_tf(parts, row) by {
        if has_row(all, row) {
            let i = choose|i: int| 0 <= i < all.len() && (#[trigger] all[i]).0 == row;
            lemma_tf_at(all, i);
        } else {
            lemma_no_row(parts, row);
        }
    }
}

#[verifier::rlimit(60)]
proof fn lemma_can_merge(parts: Seq<(u64, Binary32)>)
    ensures
        exists|postings: Seq<(u64, Binary32)>| merges(postings, parts),
    decreases parts.len(),
{
    if parts.len() == 0 {
        assert(merges(Seq::<(u64, Binary32)>::empty(), parts));
    } else {
        let init = parts.drop_last();
        let (row, part) = parts.last();
        lemma_can_merge(init);
        let old_all = choose|postings: Seq<(u64, Binary32)>| merges(postings, init);
        let k = lemma_row_place(old_all, row, old_all.len());
        let entry = (row, blended_tf(parts, row));
        let all = if has_row(old_all, row) {
            old_all.update(k, entry)
        } else {
            old_all.insert(k, entry)
        };
        let known = has_row(old_all, row);
        assert(known ==> k < old_all.len() && old_all[k].0 == row);
        assert(all[k] == entry);
        assert forall|r: u64| has_row(parts, r) <==> has_row(init, r) || r == row by {
            if has_row(init, r) {
                let i = choose|i: int| 0 <= i < init.len() && (#[trigger] init[i]).0 == r;
                assert(parts[i].0 == r);
            }
            assert(parts[parts.len() - 1].0 == row);
            if has_row(parts, r) && r != row {
                let i = choose|i: int| 0 <= i < parts.len() && (#[trigger] parts[i]).0 == r;
                assert(init[i].0 == r);
            }
        }
        assert forall|r: u64| #[trigger] has_row(all, r) <==> has_row(parts, r) by {
            assert(has_row(old_all, r) <==> has_row(init, r));
            if has_row(old_all, r) {
                let i = choose|i: int| 0 <= i < old_all.len() && (#[trigger] old_all[i]).0 == r;
                if known || i < k {
                    assert(all[i].0 == r);
                } else {
                    assert(all[i + 1].0 == r);
                }
            }
            if has_row(all, r) && r != row {
                let i = choose|i: int| 0 <= i < all.len() && (#[trigger] all[i]).0 == r;
                if known || i < k {
                    assert(old_all[i].0 == r);
                } else {
                    assert(old_all[i - 1].0 == r);
                }
            }
            if r == row {
                assert(all[k].0 == r);
            }
        }
        assert forall|i: int| 0 <= i < all.len() implies (#[trigger] all[i]).1 == blended_tf(
            parts,
            all[i].0,
        ) by {
            if i != k {
                let j = if known || i < k {
                    i
                } else {
                    i - 1
                };
                assert(all[i] == old_all[j]);
                assert(has_row(old_all, old_all[j].0));
                assert(old_all[j].0 != row);
            }
        }
        assert forall|i: int, j: int| 0 <= i < j < all.len() implies all[i].0 < all[j].0 by {
            let a = if known || i < k {
                i
            } else {
                i - 1
            };
            let b = if known || j < k {
                j
            } else {
                j - 1
            };
            if !known && i == k {
                assert(old_all[b].0 != row);
            } else if !known && j == k {
                assert(old_all[a].0 < row);
            } else {
                assert(old_all[a].0 < old_all[b].0);
            }
        }
        assert(merges(all, parts));
    }
}

/// Where a row is or would be among ascending ones.
proof fn lemma_row_place(a: Seq<(u64, Binary32)>, row: u64, n: nat) -> (k: int)
    requires
        ascending(a),
        n <= a.len(),
        forall|i: int| n <= i < a.len() ==> (#[trigger] a[i]).0 >= row,
    ensures
        0 <= k <= a.len(),
        forall|i: int| 0 <= i < k ==> (#[trigger] a[i]).0 < row,
        forall|i: int| k <= i < a.len() ==> (#[trigger] a[i]).0 >= row,
        has_row(a, row) ==> k < a.len() && a[k].0 == row,
    decreases n,
{
    if n == 0 || a[n - 1].0 < row {
        if has_row(a, row) {
            let i = choose|i: int| 0 <= i < a.len() && (#[trigger] a[i]).0 == row;
            assert(i >= n);
            if i > n {
                assert(a[n as int].0 < a[i].0);
            }
        }
        n as int
    } else {
        lemma_row_place(a, row, (n - 1) as nat)
    }
}

/// Only rows that the mask selects are ever accumulated, and never the address
/// that marks deleted documents.
pub proof fn law_only_live_selected_rows(
    sources: Seq<LoadedSource>,
    selected: Set<u64>,
    row: u64,
)
    requires
        has_row(contributions(sources, selected), row),
    ensures
        row != TOMBSTONE_ROW,
        selected.contains(row),
    decreases sources.len(),
{
    if sources.len() > 0 {
        let s = sources.last();
        let before = contributions(sources.drop_last(), selected);
        let rows = live_rows(s.posting, s.docs, s.is_legacy, s.posting.len_spec());
        let own = weighted_rows(rows, selected, s.weight);
        let all = contributions(sources, selected);
        let i = choose|i: int| 0 <= i < all.len() && (#[trigger] all[i]).0 == row;
        if i < before.len() {
            assert(before[i].0 == row);
            assert(has_row(before, row));
            law_only_live_selected_rows(sources.drop_last(), selected, row);
        } else {
            let k = lemma_weighted_row(rows, selected, s.weight, i - before.len());
            lemma_live_row(s.posting, s.docs, s.is_legacy, s.posting.len_spec(), k);
        }
    }
}

proof fn lemma_weighted_row(
    rows: Seq<(u64, u32)>,
    selected: Set<u64>,
    weight: Binary32,
    i: int,
) -> (k: int)
    requires
        0 <= i < weighted_rows(rows, selected, weight).len(),
    ensures
        0 <= k < rows.len(),
        rows[k].0 == weighted_rows(rows, selected, weight)[i].0,
        selected.contains(rows[k].0),
    decreases rows.len(),
{
    let init = weighted_rows(rows.drop_last(), selected, weight);
    if i < init.len() {
        lemma_weighted_row(rows.drop_last(), selected, weight, i)
    } else {
        rows.len() - 1
    }
}

proof fn lemma_live_row(
    posting: &PostingList,
    docs: &AddressKeyedDocuments,
    is_legacy: bool,
    n: nat,
    i: int,
)
    requires
        0 <= i < live_rows(posting, docs, is_legacy, n).len(),
    ensures
        live_rows(posting, docs, is_legacy, n)[i].0 != TOMBSTONE_ROW,
    decreases n,
{
    if n > 0 && i < live_rows(posting, docs, is_legacy, (n - 1) as nat).len() {
        lemma_live_row(posting, docs, is_legacy, (n - 1) as nat, i);
    }
}

/// A map that holds the blended frequency of each row that occurs.
spec fn accumulates(acc: Map<u64, Binary32>, parts: Seq<(u64, Binary32)>) -> bool {
    &&& forall|row: u64| #[trigger] acc.contains_key(row) <==> has_row(parts, row)
    &&& forall|row: u64| #[trigger] acc.contains_key(row) ==> acc[row] == blended_tf(parts, row)
}

proof fn lemma_no_row(parts: Seq<(u64, Binary32)>, row: u64)
    requires
        !has_row(parts, row),
    ensures
        blended_tf(parts, row) == Binary32::zero_spec(),
    decreases parts.len(),
{
    if parts.len() > 0 {
        let init = parts.drop_last();
        assert(parts[parts.len() - 1].0 != row);
        assert(!has_row(init, row)) by {
            if has_row(init, row) {
                let i = choose|i: int| 0 <= i < init.len() && (#[trigger] init[i]).0 == row;
                assert(parts[i].0 == row);
            }
        }
        lemma_no_row(init, row);
    }
}

proof fn lemma_accumulate(
    acc: Map<u64, Binary32>,
    parts: Seq<(u64, Binary32)>,
    row: u64,
    part: Binary32,
)
    requires
        accumulates(acc, parts),
    ensures
        accumulates(
            acc.insert(
                row,
                (if acc.contains_key(row) {
                    acc[row]
                } else {
                    Binary32::zero_spec()
                }).plus(part),
            ),
            parts.push((row, part)),
        ),
{
    let more = parts.push((row, part));
    assert(more.drop_last() == parts);
    if !acc.contains_key(row) {
        lemma_no_row(parts, row);
    }
    assert forall|r: u64| has_row(more, r) <==> has_row(parts, r) || r == row by {
        if has_row(parts, r) {
            let i = choose|i: int| 0 <= i < parts.len() && (#[trigger] parts[i]).0 == r;
            assert(more[i].0 == r);
        }
        assert(more[parts.len() as int].0 == row);
        if has_row(more, r) && r != row {
            let i = choose|i: int| 0 <= i < more.len() && (#[trigger] more[i]).0 == r;
            assert(parts[i].0 == r);
        }
    }
}

/// Builds the full-read cursor for `term` by merging every source's postings,
/// the rows that the mask does not select left out.
#[verifier::rlimit(60)]
pub fn build_materialized_term(
    term: &str,
    sources: &Vec<LoadedSource>,
    mask: &RowAddrMask,
    scorer: &CombinedFieldsBM25Scorer,
) -> (r: MaterializedTerm)
    ensures
        r.model() == term_of(
            listed_weight(scorer.query_weights@, term@),
            sources@,
            selected_rows(*mask),
        ),
        merges(r.postings.postings@, contributions(sources@, selected_rows(*mask))),
        r.position() == 0,
{
    let mut acc: BTreeMap<u64, Binary32> = BTreeMap::new();
    let ghost selected = selected_rows(*mask);
    let mut i: usize = 0;
    while i < sources.len()
        invariant
            i <= sources.len(),
            selected == selected_rows(*mask),
            accumulates(acc@, contributions(sources@.take(i as int), selected)),
        decreases sources.len() - i,
    {
        let source = &sources[i];
        let rows = live_posting_rows(source.posting, source.docs, source.is_legacy);
        let ghost before = contributions(sources@.take(i as int), selected);
        let mut j: usize = 0;
        proof {
            assert(before + weighted_rows(rows@.take(0), selected, source.weight) == before);
        }
        while j < rows.len()
            invariant
                j <= rows.len(),
                selected == selected_rows(*mask),
                accumulates(
                    acc@,
                    before + weighted_rows(rows@.take(j as int), selected, source.weight),
                ),
            decreases rows.len() - j,
        {
            let (row, frequency) = rows[j];
            let ghost parts = before + weighted_rows(rows@.take(j as int), selected, source.weight);
            proof {
                assert(rows@.take(j + 1).drop_last() == rows@.take(j as int));
            }
            if mask.selected(row) {
                let part = source.weight.mul(Binary32::from_count(frequency));
                let so_far = match acc.get(&row) {
                    Some(tf) => *tf,
                    None => Binary32::zero(),
                };
                proof {
                    lemma_accumulate(acc@, parts, row, part);
                    assert(parts.push((row, part)) == before + weighted_rows(
                        rows@.take(j + 1),
                        selected,
                        source.weight,
                    ));
                }
                acc.insert(row, so_far.add(part));
            }
            j = j + 1;
        }
        proof {
            assert(rows@.take(rows.len() as int) == rows@);
            assert(sources@.take(i + 1).drop_last() == sources@.take(i as int));
        }
        i = i + 1;
    }
    let ghost parts = contributions(sources@, selected);
    proof {
        assert(sources@.take(sources.len() as int) == sources@);
    }
    let idf = scorer.query_weight(term);
    let postings = entries_of(&acc);
    proof {
        assert forall|row: u64| #[trigger] has_row(postings@, row) <==> has_row(parts, row) by {
            assert(acc@.contains_key(row) <==> has_row(parts, row));
        }
        assert forall|k: int| 0 <= k < postings@.len() implies (#[trigger] postings@[k]).1
            == blended_tf(parts, postings@[k].0) by {
            assert(has_row(postings@, postings@[k].0));
            assert(acc@.contains_key(postings@[k].0));
        }
        lemma_merged(parts);
        lemma_merges_unique(postings@, merged(parts), parts);
    }
    MaterializedTerm::new(
        CombinedTermPostings { idf, upper_bound: term_upper_bound(idf), postings },
    )
}

/// The entries of a map in ascending order of their keys.
fn entries_of(map: &BTreeMap<u64, Binary32>) -> (entries: Vec<(u64, Binary32)>)
    ensures
        ascending(entries@),
        forall|row: u64| #[trigger] has_row(entries@, row) <==> map@.contains_key(row),
        forall|i: int|
            0 <= i < entries@.len() ==> (#[trigger] entries@[i]).1 == map@[entries@[i].0],
{
    let mut entries: Vec<(u64, Binary32)> = Vec::new();
    let pairs = map.iter();
    let ghost all = vstd::std_specs::iter::IteratorSpec::remaining(&pairs);
    for pair in iter: pairs
        invariant
            iter.seq() == all,
            entries@.len() == iter.index(),
            forall|i: int|
                0 <= i < entries@.len() ==> #[trigger] entries@[i] == (*all[i].0, *all[i].1),
    {
        entries.push((*pair.0, *pair.1));
    }
    proof {
        let keys = all.map_values(|kv: (&u64, &Binary32)| *kv.0);
        assert(vstd::std_specs::btree::increasing_seq(keys));
        assert forall|i: int, j: int| 0 <= i < j < entries@.len() implies entries@[i].0
            < entries@[j].0 by {
            assert(keys[i] == entries@[i].0 && keys[j] == entries@[j].0);
            assert(vstd::std_specs::cmp::OrdSpec::cmp_spec(&keys[i], &keys[j]) is Less);
        }
        assert forall|row: u64| #[trigger] has_row(entries@, row) <==> map@.contains_key(row) by {
            if map@.contains_key(row) {
                assert(all.contains((&row, &map@[row])));
                let i = choose|i: int| 0 <= i < all.len() && all[i] == (&row, &map@[row]);
                assert(entries@[i].0 == row);
            }
        }
    }
    entries
}

} // verus!
