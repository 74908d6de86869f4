//! Why the MAXSCORE scan only moves forward, and how much of its input it meets.
//!
//! What is said here holds of all ascending postings, whatever the weights, the
//! ceilings and the scores are.
use crate::binary::Binary32;
use crate::binary::Binary64;
use crate::bounds::cannot_compete;
use crate::bounds::ceiling_total;
use crate::bounds::lemma_cannot_compete_monotone;
use crate::bounds::sum_factor;
use crate::bounds::total;
use crate::cursor::ascending;
use crate::cursor::TermModel;
use crate::maxscore::collected;
use crate::maxscore::hopeless_prefix;
use crate::maxscore::ScanInput;
use crate::maxscore::ScanState;
use crate::ranking::holds_row;
use crate::ranking::lemma_filed;
use crate::ranking::ranked;
use crate::ranking::RankedDoc;
use vstd::prelude::*;

verus! {

/// Every term's postings ascend.
pub open spec fn all_ascend(terms: Seq<TermModel>) -> bool {
    &&& terms.len() <= usize::MAX
    &&& forall|t: int| 0 <= t < terms.len() ==> ascending((#[trigger] terms[t]).postings)
}

/// What a cursor has still before it lies behind `last`.
pub open spec fn cursor_ahead(term: TermModel, position: nat, last: int) -> bool {
    forall|p: int| position <= p < term.postings.len() ==> (#[trigger] term.postings[p]).0 > last
}

/// Where a scan stands between two candidates, `last` being the one before:
/// its essential cursors lie ahead of it, and what is kept does not.
pub open spec fn ahead(input: ScanInput, s: ScanState, last: int) -> bool {
    &&& all_ascend(input.terms)
    &&& s.positions.len() == input.terms.len()
    &&& forall|t: int|
        0 <= t < input.terms.len() && input.essential(s).contains(t as usize) ==> cursor_ahead(
            input.terms[t],
            #[trigger] s.positions[t],
            last,
        )
    &&& ranked(s.top)
    &&& s.top.len() <= input.limit
    &&& forall|i: int| 0 <= i < s.top.len() ==> (#[trigger] s.top[i]).row_id <= last
    &&& s.top.len() > 0 && s.top.len() == input.limit ==> s.threshold == s.top.last().score
    &&& s.top.len() == 0 || s.top.len() < input.limit ==> s.threshold == Binary32 {
        bits: 0xff80_0000,
    }
}

/// A threshold that has risen or stayed; one that is not a number stays.
pub open spec fn risen(low: Binary32, high: Binary32) -> bool {
    low == high || low.at_most(high)
}

/// Where a prefix is hopeless, its ceilings cannot compete.
pub proof fn lemma_prefix_hopeless(
    bounds: Seq<Binary32>,
    floor: Binary32,
    factor: Binary64,
    from: nat,
)
    requires
        from <= bounds.len(),
    ensures
        from <= hopeless_prefix(bounds, floor, factor, from) <= bounds.len(),
        hopeless_prefix(bounds, floor, factor, from) > from ==> cannot_compete(
            Binary32::zero_spec(),
            ceiling_total(bounds.take(hopeless_prefix(bounds, floor, factor, from) as int)),
            floor,
            factor,
        ),
    decreases bounds.len() - from,
{
    if from < bounds.len() && cannot_compete(
        Binary32::zero_spec(),
        ceiling_total(bounds.take(from as int + 1)),
        floor,
        factor,
    ) {
        lemma_prefix_hopeless(bounds, floor, factor, from + 1);
    }
}

/// A higher floor makes no prefix shorter.
proof fn lemma_prefix_monotone(
    bounds: Seq<Binary32>,
    low: Binary32,
    high: Binary32,
    factor: Binary64,
    from: nat,
)
    requires
        from <= bounds.len(),
        low.at_most(high),
    ensures
        hopeless_prefix(bounds, low, factor, from) <= hopeless_prefix(bounds, high, factor, from),
    decreases bounds.len() - from,
{
    lemma_prefix_hopeless(bounds, high, factor, from);
    if from < bounds.len() && cannot_compete(
        Binary32::zero_spec(),
        ceiling_total(bounds.take(from as int + 1)),
        low,
        factor,
    ) {
        lemma_cannot_compete_monotone(
            Binary32::zero_spec(),
            ceiling_total(bounds.take(from as int + 1)),
            low,
            high,
            factor,
        );
        lemma_prefix_monotone(bounds, low, high, factor, from + 1);
    }
}

/// A candidate lies behind the one before, at the head of an essential term.
pub proof fn lemma_next_ahead(input: ScanInput, s: ScanState, last: int) -> (t: int)
    requires
        ahead(input, s, last),
        input.next(s) != u64::MAX,
    ensures
        input.next(s) > last,
        0 <= t < input.terms.len(),
        input.essential(s).contains(t as usize),
        input.terms[t].head_at(s.positions[t]) == Some(input.next(s)),
{
    let row = input.next(s);
    let ess = input.essential(s);
    input.lemma_split_range(s);
    input.lemma_lowest_head(s.positions, ess);
    let j = choose|j: int|
        0 <= j < ess.len() && input.terms[(#[trigger] ess[j]) as int].head_at(
            s.positions[ess[j] as int],
        ) == Some(row);
    let t = ess[j] as int;
    assert(ess[j] == input.order()[input.split(s) + j]);
    assert(ess.contains(t as usize));
    assert(cursor_ahead(input.terms[t], s.positions[t], last));
    assert(input.terms[t].postings[s.positions[t] as int].0 == row);
    t
}

/// What collecting a document at a later row does.
#[verifier::rlimit(60)]
proof fn lemma_collect_ahead(input: ScanInput, s: ScanState, last: int, doc: RankedDoc)
    requires
        ahead(input, s, last),
        doc.row_id > last,
    ensures
        ({
            let (top, threshold) = collected(s.top, s.threshold, input.limit, doc);
            &&& ranked(top)
            &&& top.len() == (if s.top.len() < input.limit {
                s.top.len() + 1
            } else {
                s.top.len()
            })
            &&& forall|i: int| 0 <= i < top.len() ==> (#[trigger] top[i]).row_id <= doc.row_id
            &&& top.len() > 0 && top.len() == input.limit ==> threshold == top.last().score
            &&& top.len() == 0 || top.len() < input.limit ==> threshold == Binary32 {
                bits: 0xff80_0000,
            }
            &&& s.top.len() >= input.limit ==> risen(s.threshold, threshold)
        }),
{
    let (top, threshold) = collected(s.top, s.threshold, input.limit, doc);
    if s.top.len() < input.limit {
        assert(!holds_row(s.top, doc.row_id));
        lemma_filed(s.top, doc);
        assert forall|i: int| 0 <= i < top.len() implies (#[trigger] top[i]).row_id
            <= doc.row_id by {
            if top[i] != doc {
                let j = choose|j: int| 0 <= j < s.top.len() && s.top[j] == top[i];
                assert(s.top[j].row_id <= last);
            }
        }
    } else if s.top.len() > 0 && s.top.last().score.before(doc.score) {
        let init = s.top.drop_last();
        assert(ranked(init)) by {
            assert forall|i: int, j: int| 0 <= i < j < init.len() implies (
            #[trigger] init[i]).better(#[trigger] init[j]) by {
                assert(s.top[i].better(s.top[j]));
            }
        }
        assert forall|i: int| 0 <= i < init.len() implies (#[trigger] init[i]).row_id <= last by {
            assert(init[i] == s.top[i]);
        }
        assert(!holds_row(init, doc.row_id));
        lemma_filed(init, doc);
        assert forall|i: int| 0 <= i < top.len() implies (#[trigger] top[i]).row_id
            <= doc.row_id by {
            if top[i] != doc {
                let j = choose|j: int| 0 <= j < init.len() && init[j] == top[i];
                assert(init[j].row_id <= last);
            }
        }
        if init.len() > 0 {
            assert(s.top[init.len() - 1].better(s.top[init.len() as int]));
            assert(init.last() == s.top[init.len() - 1]);
            assert(s.top.last() == s.top[init.len() as int]);
        } else {
            crate::ranking::lemma_place_range(init, doc);
            assert(top.last() == doc);
        }
    }
}

/// A step moves the scan past its candidate. What is kept stays full once it is,
/// the threshold never falls, and no term becomes essential again.
#[verifier::rlimit(60)]
pub proof fn lemma_step_ahead(input: ScanInput, s: ScanState, last: int)
    requires
        ahead(input, s, last),
        input.next(s) != u64::MAX,
    ensures
        ahead(input, input.step(s), input.next(s) as int),
        input.next(s) > last,
        input.split(s) <= input.split(input.step(s)),
        forall|t: usize| #[trigger]
            input.essential(input.step(s)).contains(t) ==> input.essential(s).contains(t),
        s.top.len() >= input.limit ==> input.step(s).top.len() >= input.limit && risen(
            s.threshold,
            input.step(s).threshold,
        ),
{
    let row = input.next(s);
    let s2 = input.step(s);
    let ess = input.essential(s);
    let _ = lemma_next_ahead(input, s, last);
    lemma_collect_ahead(
        input,
        s,
        last,
        RankedDoc { row_id: row, score: total(input.parts(s, row)) },
    );
    input.lemma_split_range(s);
    input.lemma_split_range(s2);
    assert(input.split(s) <= input.split(s2)) by {
        if s.top.len() >= input.limit && s.threshold != s2.threshold {
            lemma_prefix_monotone(
                input.ordered_ceilings(),
                s.threshold,
                s2.threshold,
                sum_factor(input.terms.len()),
                0,
            );
        }
    }
    let (d, d2) = (input.split(s) as int, input.split(s2) as int);
    assert forall|t: usize| #[trigger] input.essential(s2).contains(t) implies ess.contains(t) by {
        let j = choose|j: int| 0 <= j < input.essential(s2).len() && input.essential(s2)[j] == t;
        assert(input.order()[d2 + j] == t);
        assert(ess[d2 + j - d] == t);
    }
    input.lemma_lowest_head(s.positions, ess);
    assert(s2.positions == input.advanced(s, row));
    assert forall|t: int|
        0 <= t < input.terms.len() && input.essential(s2).contains(t as usize) implies cursor_ahead(
        input.terms[t],
        #[trigger] s2.positions[t],
        row as int,
    ) by {
        let term = input.terms[t];
        assert(ess.contains(t as usize));
        assert(cursor_ahead(term, s.positions[t], last));
        let j = choose|j: int| 0 <= j < ess.len() && ess[j] == t as usize;
        assert(input.terms[ess[j] as int] == term);
        assert(ascending(term.postings));
        let at = s.positions[t] as int;
        assert forall|p: int| s2.positions[t] <= p < term.postings.len() implies (
        #[trigger] term.postings[p]).0 > row by {
            if p > at {
                assert(term.postings[at].0 < term.postings[p].0);
            }
        }
    }
}

/// The scan after `k` candidates, or at its end if there are fewer.
pub open spec fn state_after(input: ScanInput, s: ScanState, k: nat) -> ScanState
    decreases k,
{
    if k == 0 || input.next(s) == u64::MAX {
        s
    } else {
        state_after(input, input.step(s), (k - 1) as nat)
    }
}

/// A scan starts ahead of every row.
pub proof fn lemma_start_ahead(input: ScanInput, positions: Seq<nat>)
    requires
        all_ascend(input.terms),
        positions.len() == input.terms.len(),
    ensures
        ahead(input, ScanInput::start(positions), -1),
{
}

/// How a later state of a scan relates to an earlier one.
pub open spec fn follows(input: ScanInput, a: ScanState, b: ScanState) -> bool {
    &&& input.next(a) <= input.next(b)
    &&& a.top.len() >= input.limit ==> b.top.len() >= input.limit && risen(a.threshold, b.threshold)
    &&& input.split(a) <= input.split(b)
    &&& forall|t: int|
        0 <= t < input.terms.len() && !input.essential(a).contains(t as usize)
            ==> !input.essential(b).contains(t as usize) && #[trigger] b.positions[t]
            == a.positions[t]
}

/// Candidates are met in ascending order of their rows, so that every row that
/// is probed lies behind those probed before. Once enough documents are kept
/// that stays so, and the threshold never falls. A term that has become
/// non-essential stays so: once it is probed, nothing of it is consumed again.
///
/// `k` and `m` count candidates, the second state coming after the first.
pub proof fn law_scan_only_advances(input: ScanInput, positions: Seq<nat>, k: nat, m: nat)
    requires
        all_ascend(input.terms),
        positions.len() == input.terms.len(),
        k < m,
    ensures
        ({
            let a = state_after(input, ScanInput::start(positions), k);
            let b = state_after(input, ScanInput::start(positions), m);
            &&& follows(input, a, b)
            &&& input.next(a) == u64::MAX || input.next(a) < input.next(b)
        }),
{
    lemma_start_ahead(input, positions);
    lemma_skip_states(input, ScanInput::start(positions), -1, k, (m - k) as nat);
}

proof fn lemma_skip_states(input: ScanInput, s: ScanState, last: int, k: nat, more: nat)
    requires
        ahead(input, s, last),
        more > 0,
    ensures
        ({
            let a = state_after(input, s, k);
            let b = state_after(input, s, k + more);
            &&& follows(input, a, b)
            &&& input.next(a) == u64::MAX || input.next(a) < input.next(b)
        }),
    decreases k,
{
    if input.next(s) != u64::MAX {
        if k == 0 {
            lemma_follows(input, s, last, more);
        } else {
            lemma_step_ahead(input, s, last);
            lemma_skip_states(input, input.step(s), input.next(s) as int, (k - 1) as nat, more);
        }
    }
}

#[verifier::rlimit(60)]
proof fn lemma_follows(input: ScanInput, s: ScanState, last: int, more: nat)
    requires
        ahead(input, s, last),
        input.next(s) != u64::MAX,
        more > 0,
    ensures
        follows(input, s, state_after(input, s, more)),
        input.next(s) < input.next(state_after(input, s, more)),
    decreases more,
{
    lemma_step_ahead(input, s, last);
    let s2 = input.step(s);
    let row = input.next(s);
    let b = state_after(input, s2, (more - 1) as nat);
    if input.next(s2) == u64::MAX || more == 1 {
        assert(b == s2);
        if input.next(s2) != u64::MAX {
            let _ = lemma_next_ahead(input, s2, row as int);
        }
    } else {
        let _ = lemma_next_ahead(input, s2, row as int);
        lemma_follows(input, s2, row as int, (more - 1) as nat);
    }
    assert forall|t: int|
        0 <= t < input.terms.len() && !input.essential(s).contains(
            t as usize,
        ) implies !input.essential(b).contains(t as usize) && #[trigger] b.positions[t]
        == s.positions[t] by {
        assert(!input.essential(s2).contains(t as usize));
        assert(s2.positions == input.advanced(s, row));
        assert(s2.positions[t] == s.positions[t]);
        assert(b.positions[t] == s2.positions[t]);
    }
}

/// The rows that some cursors have still before them.
pub open spec fn rows_left(terms: Seq<TermModel>, positions: Seq<nat>) -> Set<u64> {
    Set::new(|row: u64| row < u64::MAX && exists|t: int| #[trigger]
        row_left(terms, positions, row, t))
}

/// Whether the cursor of one term has a row still before it.
pub open spec fn row_left(
    terms: Seq<TermModel>,
    positions: Seq<nat>,
    row: u64,
    t: int,
) -> bool {
    0 <= t < terms.len() && exists|p: int|
        positions[t] <= p < terms[t].postings.len() && (#[trigger] terms[t].postings[p]).0 == row
}

/// Only finitely many rows are left.
proof fn lemma_rows_finite(terms: Seq<TermModel>, positions: Seq<nat>)
    ensures
        rows_left(terms, positions).finite(),
{
    lemma_term_rows(terms, terms.len());
    let all = term_rows(terms, terms.len());
    assert forall|row: u64| rows_left(terms, positions).contains(row) implies all.contains(
        row,
    ) by {
        let t = choose|t: int| #[trigger] row_left(terms, positions, row, t);
        let p = choose|p: int|
            positions[t] <= p < terms[t].postings.len() && (#[trigger] terms[t].postings[p]).0
                == row;
        assert(terms[t].postings[p].0 == row);
    }
    vstd::set_lib::lemma_set_subset_finite(all, rows_left(terms, positions));
}

/// The rows of the first `n` terms.
spec fn term_rows(terms: Seq<TermModel>, n: nat) -> Set<u64>
    decreases n,
{
    if n == 0 {
        Set::empty()
    } else {
        let postings = terms[n - 1].postings;
        term_rows(terms, (n - 1) as nat).union(
            Seq::new(postings.len(), |p: int| postings[p].0).to_set(),
        )
    }
}

proof fn lemma_term_rows(terms: Seq<TermModel>, n: nat)
    ensures
        term_rows(terms, n).finite(),
        forall|t: int, p: int|
            0 <= t < n && 0 <= p < terms[t].postings.len() ==> term_rows(terms, n).contains(
                (#[trigger] terms[t].postings[p]).0,
            ),
    decreases n,
{
    if n > 0 {
        lemma_term_rows(terms, (n - 1) as nat);
        let postings = terms[n - 1].postings;
        let rows = Seq::new(postings.len(), |p: int| postings[p].0);
        vstd::seq_lib::seq_to_set_is_finite(rows);
        assert forall|t: int, p: int|
            0 <= t < n && 0 <= p < terms[t].postings.len() implies term_rows(terms, n).contains(
            (#[trigger] terms[t].postings[p]).0,
        ) by {
            if t == n - 1 {
                assert(rows[p] == terms[t].postings[p].0);
                assert(rows.contains(rows[p]));
            } else {
                assert(term_rows(terms, (n - 1) as nat).contains(terms[t].postings[p].0));
            }
        }
    }
}

/// Those of some rows that lie behind `last`.
spec fn rows_past(rows: Set<u64>, last: int) -> Set<u64> {
    Set::new(|row: u64| rows.contains(row) && row > last)
}

/// How a scan's counters relate to what it has met, from cursors at `from`.
spec fn counted(input: ScanInput, from: Seq<nat>, s: ScanState, last: int) -> bool {
    let rows = rows_left(input.terms, from);
    &&& ahead(input, s, last)
    &&& from.len() == s.positions.len()
    &&& forall|t: int| 0 <= t < from.len() ==> from[t] <= #[trigger] s.positions[t]
    &&& s.top.len() == (if s.scored < input.limit {
        s.scored
    } else {
        input.limit
    })
    &&& s.discovered + rows_past(rows, last).len() <= rows.len()
    &&& s.top.len() < input.limit ==> {
        &&& s.pruned == 0
        &&& s.discovered + rows_past(rows, last).len() == rows.len()
        &&& forall|t: int, p: int|
            0 <= t < from.len() && from[t] <= p < s.positions[t] && p
                < input.terms[t].postings.len() ==> (#[trigger] input.terms[t].postings[p]).0
                <= last
    }
}

/// Candidates are as many as the rows they are: at most those that the cursors
/// have before them. Of the scored documents as many are kept as the limit
/// admits. A scan that keeps fewer has met every row and skipped none.
pub proof fn law_counts(input: ScanInput, positions: Seq<nat>)
    requires
        all_ascend(input.terms),
        positions.len() == input.terms.len(),
    ensures
        rows_left(input.terms, positions).finite(),
        ({
            let end = input.run(ScanInput::start(positions));
            let rows = rows_left(input.terms, positions).len();
            &&& end.discovered <= rows
            &&& end.top.len() == (if end.scored < input.limit {
                end.scored
            } else {
                input.limit
            })
            &&& end.top.len() < input.limit ==> end.pruned == 0 && end.discovered == rows
        }),
{
    let rows = rows_left(input.terms, positions);
    lemma_start_ahead(input, positions);
    lemma_rows_finite(input.terms, positions);
    assert(rows_past(rows, -1) =~= rows);
    lemma_counts(input, positions, ScanInput::start(positions), -1);
}

#[verifier::rlimit(60)]
proof fn lemma_counts(input: ScanInput, from: Seq<nat>, s: ScanState, last: int)
    requires
        counted(input, from, s, last),
    ensures
        ({
            let end = input.run(s);
            let rows = rows_left(input.terms, from).len();
            &&& end.discovered <= rows
            &&& end.top.len() == (if end.scored < input.limit {
                end.scored
            } else {
                input.limit
            })
            &&& end.top.len() < input.limit ==> end.pruned == 0 && end.discovered == rows
        }),
    decreases input.remaining(s.positions, input.terms.len()),
{
    let rows = rows_left(input.terms, from);
    lemma_rows_finite(input.terms, from);
    if input.next(s) == u64::MAX {
        if s.top.len() < input.limit {
            assert forall|row: u64| !rows_past(rows, last).contains(row) by {
                if rows_past(rows, last).contains(row) {
                    lemma_next_is_first(input, from, s, last, row);
                }
            }
            assert(rows_past(rows, last) =~= Set::empty());
        }
    } else {
        lemma_count_step(input, from, s, last);
        input.lemma_step_consumes(s);
        lemma_counts(input, from, input.step(s), input.next(s) as int);
    }
}

/// Before enough documents are kept, the next candidate is the first row left.
proof fn lemma_next_is_first(
    input: ScanInput,
    from: Seq<nat>,
    s: ScanState,
    last: int,
    row: u64,
)
    requires
        counted(input, from, s, last),
        s.top.len() < input.limit,
        rows_left(input.terms, from).contains(row),
        row > last,
    ensures
        input.next(s) <= row,
        input.next(s) < u64::MAX,
{
    let t = choose|t: int| #[trigger] row_left(input.terms, from, row, t);
    let term = input.terms[t];
    let p = choose|p: int|
        from[t] <= p < term.postings.len() && (#[trigger] term.postings[p]).0 == row;
    assert(input.terms[t].postings[p].0 == row);
    let at = s.positions[t] as int;
    assert(at <= p);
    assert(ascending(term.postings));
    if at < p {
        assert(term.postings[at].0 < term.postings[p].0);
    }
    let ess = input.essential(s);
    input.lemma_split_range(s);
    assert(ess =~= input.order());
    assert(input.order().contains(t as usize));
    let j = choose|j: int| 0 <= j < ess.len() && ess[j] == t as usize;
    input.lemma_lowest_head(s.positions, ess);
    assert(input.terms[ess[j] as int].head_at(s.positions[ess[j] as int]) == Some(
        term.postings[at].0,
    ));
}

#[verifier::rlimit(60)]
proof fn lemma_count_step(input: ScanInput, from: Seq<nat>, s: ScanState, last: int)
    requires
        counted(input, from, s, last),
        input.next(s) != u64::MAX,
    ensures
        counted(input, from, input.step(s), input.next(s) as int),
{
    let rows = rows_left(input.terms, from);
    let row = input.next(s);
    let s2 = input.step(s);
    lemma_rows_finite(input.terms, from);
    lemma_step_ahead(input, s, last);
    let t = lemma_next_ahead(input, s, last);
    assert(input.terms[t].postings[s.positions[t] as int].0 == row);
    assert(row_left(input.terms, from, row, t)) by {
        assert(from[t] <= s.positions[t]);
    }
    assert(rows.contains(row));
    let (past, past2) = (rows_past(rows, last), rows_past(rows, row as int));
    assert(past.contains(row));
    assert(past.subset_of(rows));
    vstd::set_lib::lemma_set_subset_finite(rows, past);
    assert(past2.subset_of(past.remove(row)));
    vstd::set_lib::lemma_len_subset(past2, past.remove(row));
    assert(s2.positions == input.advanced(s, row));
    lemma_collect_ahead(
        input,
        s,
        last,
        RankedDoc { row_id: row, score: total(input.parts(s, row)) },
    );
    assert forall|t: int| 0 <= t < from.len() implies from[t] <= #[trigger] s2.positions[t] by {
        assert(from[t] <= s.positions[t]);
    }
    if s2.top.len() < input.limit {
        assert forall|r: u64| past.remove(row).contains(r) implies past2.contains(r) by {
            lemma_next_is_first(input, from, s, last, r);
        }
        assert(past2 =~= past.remove(row));
        assert forall|t: int, p: int|
            0 <= t < from.len() && from[t] <= p < s2.positions[t] && p
                < input.terms[t].postings.len() implies (#[trigger] input.terms[t].postings[p]).0
            <= row by {
            if p >= s.positions[t] {
                assert(p == s.positions[t]);
            }
        }
    }
}

} // verus!
