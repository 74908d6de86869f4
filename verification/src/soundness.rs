//! Why the MAXSCORE scan finds what the exhaustive search finds.
use crate::advance::ahead;
use crate::advance::all_ascend;
use crate::advance::lemma_prefix_hopeless;
use crate::advance::lemma_start_ahead;
use crate::advance::lemma_step_ahead;
use crate::binary::lemma_formats;
use crate::binary::lemma_plus_is_sum;
use crate::binary::lemma_plus_nan;
use crate::binary::lemma_plus_zero;
use crate::binary::lemma_times_finite;
use crate::binary::lemma_times_monotone;
use crate::binary::lemma_times_zero;
use crate::binary::single;
use crate::binary::Binary32;
use crate::binary::Binary64;
use crate::bounds::cannot_compete;
use crate::bounds::ceiling_total;
use crate::bounds::dominated;
use crate::bounds::law_cannot_compete_is_sound;
use crate::bounds::lemma_total_is_score;
use crate::bounds::lemma_zero_ceilings;
use crate::bounds::nonnegative;
use crate::bounds::picked;
use crate::bounds::raised;
use crate::bounds::sum_factor;
use crate::bounds::total;
use crate::cursor::ascending;
use crate::cursor::contributions;
use crate::cursor::has_row;
use crate::cursor::law_only_live_selected_rows;
use crate::cursor::lemma_merged;
use crate::cursor::lemma_tf_at;
use crate::cursor::tf_at;
use crate::cursor::TermModel;
use crate::float::lemma_magnitude_zero;
use crate::float::lemma_nearest_zero;
use crate::maxscore::ceiling_of;
use crate::maxscore::ceilings;
use crate::maxscore::collected;
use crate::maxscore::hopeless_prefix;
use crate::maxscore::law_order_ascends;
use crate::maxscore::lemma_ceiling_is_a_number;
use crate::maxscore::ScanInput;
use crate::maxscore::ScanState;
use crate::meaning::is_sum_of_products;
use crate::meaning::law_score_is_sum_of_products;
use crate::ranking::beaten;
use crate::ranking::filed;
use crate::ranking::is_top_k;
use crate::ranking::kept;
use crate::ranking::law_top_k_is_unique;
use crate::ranking::lemma_top_k_add;
use crate::ranking::lemma_top_k_skip;
use crate::ranking::RankedDoc;
use crate::scorer::bm25_weight;
use crate::scorer::doc_weight_ceiling;
use crate::scorer::law_doc_weight_range;
use crate::scorer::listed_weight;
use crate::search::all_partitions;
use crate::search::blended_lengths;
use crate::search::distinct;
use crate::search::exact_score;
use crate::search::is_match;
use crate::search::matching;
use crate::search::query_terms;
use crate::search::scoring;
use crate::search::sources_of;
use crate::search::CombinedFieldColumn;
use vstd::arithmetic::power2::lemma_pow2_pos;
use vstd::arithmetic::power2::pow2;
use vstd::prelude::*;

verus! {

/// The per-term ceiling dominates every contribution of the term, whatever the
/// frequency, the length and the mean length, for every finite weight. Where a
/// weight is not negative and its ceiling is finite, so is every contribution.
pub proof fn law_ceiling_dominates(idf: Binary32, avg: Binary32, tf: Binary32, dl: Binary32)
    requires
        idf.is_finite(),
    ensures
        idf.times(bm25_weight(avg, tf, dl)).at_most(ceiling_of(idf)),
        idf.key() >= 0 && ceiling_of(idf).is_finite() ==> idf.times(
            bm25_weight(avg, tf, dl),
        ).is_finite(),
{
    let w = bm25_weight(avg, tf, dl);
    law_doc_weight_range(avg, tf, dl);
    if idf.key() > 0 {
        lemma_times_monotone(idf, w, doc_weight_ceiling());
    } else {
        lemma_formats();
        reveal(Binary32::times);
        if idf.number().code == 0 {
            lemma_magnitude_zero(single(), 0);
            lemma_pow2_pos(149);
            lemma_nearest_zero(single(), pow2(149));
            assert(0 * w.number().magnitude(single()) == 0);
        }
    }
}

/// Terms as a search builds them: postings ascend and none is at the row that
/// marks deleted documents, weights are finite, and ceilings are theirs.
pub open spec fn regular(terms: Seq<TermModel>) -> bool {
    &&& terms.len() <= usize::MAX
    &&& forall|t: int| 0 <= t < terms.len() ==> regular_term(#[trigger] terms[t])
}

/// One such term.
pub open spec fn regular_term(term: TermModel) -> bool {
    &&& term.well_formed()
    &&& term.idf.is_finite()
    &&& term.ceiling == ceiling_of(term.idf)
    &&& !has_row(term.postings, u64::MAX)
}

/// Terms that a scan meets every posting of: postings ascend, and none is at
/// the row that marks deleted documents.
pub open spec fn scannable(terms: Seq<TermModel>) -> bool {
    &&& terms.len() <= usize::MAX
    &&& forall|t: int|
        0 <= t < terms.len() ==> ascending((#[trigger] terms[t]).postings) && !has_row(
            terms[t].postings,
            u64::MAX,
        )
}

/// Weights are finite.
pub open spec fn finite_weights(terms: Seq<TermModel>) -> bool {
    forall|t: int| 0 <= t < terms.len() ==> (#[trigger] terms[t]).idf.is_finite()
}

/// No weight is negative.
pub open spec fn nonnegative_weights(terms: Seq<TermModel>) -> bool {
    forall|t: int| 0 <= t < terms.len() ==> (#[trigger] terms[t]).idf.key() >= 0
}

/// Weights are so small, of either sign, that no term's part of a score overflows.
pub open spec fn bounded_weights(terms: Seq<TermModel>) -> bool {
    forall|t: int|
        0 <= t < terms.len() ==> (#[trigger] terms[t]).idf.times(doc_weight_ceiling()).is_finite()
}

/// The score of every match is a number: no infinite parts of both signs meet.
pub open spec fn numeric_scores(input: ScanInput) -> bool {
    forall|row: u64| #[trigger]
        is_match(input.terms, input.require_all, row) ==> !exact_score(
            input.terms,
            input.avg_doc_length,
            (input.lengths)(row),
            row,
        ).is_nan_spec()
}

/// What each term adds to the score of the document at `row`, absent terms included.
pub open spec fn full_parts(input: ScanInput, row: u64) -> Seq<Binary32> {
    Seq::new(
        input.terms.len(),
        |t: int| input.contribution(t, tf_at(input.terms[t].postings, row), row),
    )
}

spec fn score_at(input: ScanInput, row: u64) -> Binary32 {
    exact_score(input.terms, input.avg_doc_length, (input.lengths)(row), row)
}

proof fn lemma_parts(input: ScanInput, row: u64)
    requires
        regular(input.terms),
    ensures
        nonnegative(ceilings(input.terms)),
        dominated(full_parts(input, row), ceilings(input.terms)),
        forall|t: int|
            0 <= t < input.terms.len() && tf_at(
                (#[trigger] input.terms[t]).postings,
                row,
            ).at_most(Binary32::zero_spec()) ==> full_parts(input, row)[t].number().code == 0,
{
    let parts = full_parts(input, row);
    let dl = (input.lengths)(row);
    assert forall|t: int| 0 <= t < parts.len() implies (#[trigger] parts[t]).at_most(
        ceilings(input.terms)[t],
    ) by {
        let term = input.terms[t];
        assert(regular_term(term));
        law_ceiling_dominates(term.idf, input.avg_doc_length, tf_at(term.postings, row), dl);
    }
    assert forall|t: int| 0 <= t < ceilings(input.terms).len() implies !(#[trigger] ceilings(
        input.terms,
    )[t]).is_nan_spec() && ceilings(input.terms)[t].key() >= 0 by {
        assert(regular_term(input.terms[t]));
        lemma_ceiling_is_a_number(input.terms[t].idf);
    }
    assert forall|t: int|
        0 <= t < input.terms.len() && tf_at((#[trigger] input.terms[t]).postings, row).at_most(
            Binary32::zero_spec(),
        ) implies parts[t].number().code == 0 by {
        let term = input.terms[t];
        assert(regular_term(term));
        let tf = tf_at(term.postings, row);
        law_doc_weight_range(input.avg_doc_length, tf, dl);
        lemma_times_zero(term.idf);
    }
}

/// Terms that are absent from a document add nothing to its score: the sum over
/// all terms is, bit for bit, the sum over those with a positive frequency,
/// for all finite weights.
pub proof fn law_absent_terms_add_nothing(input: ScanInput, row: u64)
    requires
        finite_weights(input.terms),
    ensures
        total(full_parts(input, row)) == exact_score(
            input.terms,
            input.avg_doc_length,
            (input.lengths)(row),
            row,
        ),
{
    let parts = full_parts(input, row);
    lemma_prefix_score(input, row, input.terms.len());
    assert(parts.take(parts.len() as int) == parts);
    assert(input.terms.take(input.terms.len() as int) == input.terms);
}

/// On regular terms the sum over all of them is the exact score.
proof fn lemma_full_score(input: ScanInput, row: u64)
    requires
        regular(input.terms),
    ensures
        total(full_parts(input, row)) == score_at(input, row),
        score_at(input, row).is_sum(),
{
    assert forall|t: int| 0 <= t < input.terms.len() implies (
    #[trigger] input.terms[t]).idf.is_finite() by {
        assert(regular_term(input.terms[t]));
    }
    law_absent_terms_add_nothing(input, row);
    lemma_total_is_sum(full_parts(input, row));
}

/// Scores are numbers where no weight is negative, and where no part of a score
/// overflows, whatever the signs of the weights.
pub proof fn law_scores_are_numbers(input: ScanInput)
    requires
        finite_weights(input.terms),
        nonnegative_weights(input.terms) || bounded_weights(input.terms),
    ensures
        numeric_scores(input),
{
    assert forall|row: u64| #[trigger]
        is_match(input.terms, input.require_all, row) implies !score_at(
        input,
        row,
    ).is_nan_spec() by {
        let parts = full_parts(input, row);
        let dl = (input.lengths)(row);
        law_absent_terms_add_nothing(input, row);
        assert forall|t: int| 0 <= t < parts.len() implies (nonnegative_weights(input.terms)
            ==> !parts[t].is_nan_spec() && parts[t].key() >= 0) && (bounded_weights(input.terms)
            ==> (#[trigger] parts[t]).is_finite()) by {
            let term = input.terms[t];
            let tf = tf_at(term.postings, row);
            let w = bm25_weight(input.avg_doc_length, tf, dl);
            law_doc_weight_range(input.avg_doc_length, tf, dl);
            lemma_times_finite(term.idf, w, doc_weight_ceiling());
            if term.idf.key() >= 0 {
                lemma_times_monotone(term.idf, w, w);
            }
        }
        if nonnegative_weights(input.terms) {
            lemma_total_is_score(parts);
        } else {
            lemma_finite_total(parts);
        }
    }
}

/// A total of finite numbers is a number.
proof fn lemma_finite_total(parts: Seq<Binary32>)
    requires
        forall|t: int| 0 <= t < parts.len() ==> (#[trigger] parts[t]).is_finite(),
    ensures
        !total(parts).is_nan_spec(),
    decreases parts.len(),
{
    if parts.len() > 0 {
        let init = parts.drop_last();
        assert forall|t: int| 0 <= t < init.len() implies (#[trigger] init[t]).is_finite() by {
            assert(init[t] == parts[t]);
        }
        lemma_finite_total(init);
        assert(parts[parts.len() - 1].is_finite());
        lemma_plus_nan(total(init), parts.last());
    }
}

/// A total is a sum that starts from zero.
proof fn lemma_total_is_sum(parts: Seq<Binary32>)
    ensures
        total(parts).is_sum(),
    decreases parts.len(),
{
    if parts.len() > 0 {
        lemma_total_is_sum(parts.drop_last());
        lemma_plus_is_sum(total(parts.drop_last()), parts.last());
    }
}

proof fn lemma_prefix_score(input: ScanInput, row: u64, n: nat)
    requires
        finite_weights(input.terms),
        n <= input.terms.len(),
    ensures
        total(full_parts(input, row).take(n as int)) == exact_score(
            input.terms.take(n as int),
            input.avg_doc_length,
            (input.lengths)(row),
            row,
        ),
    decreases n,
{
    let parts = full_parts(input, row);
    if n > 0 {
        let k = n - 1;
        lemma_prefix_score(input, row, k as nat);
        assert(parts.take(n as int).drop_last() == parts.take(k));
        assert(input.terms.take(n as int).drop_last() == input.terms.take(k));
        assert(input.terms.take(n as int).last() == input.terms[k]);
        assert(parts.take(n as int).last() == parts[k]);
        let tf = tf_at(input.terms[k].postings, row);
        if tf.at_most(Binary32::zero_spec()) {
            law_doc_weight_range(input.avg_doc_length, tf, (input.lengths)(row));
            lemma_times_zero(input.terms[k].idf);
            lemma_total_is_sum(parts.take(k));
            lemma_plus_zero(total(parts.take(k)), parts[k]);
        }
    }
}

/// A sum of zeros is zero.
proof fn lemma_total_of_zeros(parts: Seq<Binary32>)
    requires
        forall|i: int| 0 <= i < parts.len() ==> (#[trigger] parts[i]).number().code == 0,
    ensures
        total(parts) == Binary32::zero_spec(),
    decreases parts.len(),
{
    if parts.len() > 0 {
        let init = parts.drop_last();
        assert forall|i: int| 0 <= i < init.len() implies (#[trigger] init[i]).number().code
            == 0 by {
            assert(init[i] == parts[i]);
        }
        lemma_total_of_zeros(init);
        assert(parts[parts.len() - 1].number().code == 0);
        lemma_plus_zero(Binary32::zero_spec(), parts.last());
    }
}

/// The matches that lie before a scan.
spec fn matches_to(input: ScanInput, last: int) -> spec_fn(u64) -> bool {
    |row: u64| is_match(input.terms, input.require_all, row) && row <= last
}

spec fn scores(input: ScanInput) -> spec_fn(u64) -> Binary32 {
    scoring(input.terms, input.avg_doc_length, input.lengths)
}

/// Where the cursors stand between two candidates, `last` being the one before.
spec fn in_step(input: ScanInput, s: ScanState, last: int) -> bool {
    &&& scannable(input.terms)
    &&& s.positions.len() == input.terms.len()
    &&& forall|t: int|
        0 <= t < input.terms.len() && input.essential(s).contains(t as usize) ==> cursor_at(
            input.terms[t],
            #[trigger] s.positions[t],
            last,
        )
}

/// What holds between two candidates on regular terms whose matches score numbers.
spec fn consistent(input: ScanInput, s: ScanState, last: int) -> bool {
    &&& regular(input.terms)
    &&& numeric_scores(input)
    &&& in_step(input, s, last)
    &&& ahead(input, s, last)
    &&& is_top_k(s.top, matches_to(input, last), scores(input), input.limit)
}

/// A cursor that is past `last` and no further.
spec fn cursor_at(term: TermModel, position: nat, last: int) -> bool {
    &&& position <= term.postings.len()
    &&& forall|p: int| 0 <= p < position ==> (#[trigger] term.postings[p]).0 <= last
    &&& forall|p: int|
        position <= p < term.postings.len() ==> (#[trigger] term.postings[p]).0 > last
}

/// A document whose score does not exceed the threshold, and whose row comes
/// after all that are kept, loses to all of them.
proof fn lemma_beaten(input: ScanInput, s: ScanState, last: int, row: u64)
    requires
        consistent(input, s, last),
        row > last,
        is_match(input.terms, input.require_all, row),
        s.top.len() >= input.limit,
        score_at(input, row).at_most(s.threshold),
    ensures
        beaten(s.top, input.limit, RankedDoc { row_id: row, score: score_at(input, row) }),
{
    let doc = RankedDoc { row_id: row, score: score_at(input, row) };
    lemma_full_score(input, row);
    assert forall|i: int| 0 <= i < s.top.len() implies (#[trigger] s.top[i]).better(doc) by {
        lemma_kept_score(input, s, last, i);
        let end = s.top.len() - 1;
        lemma_kept_score(input, s, last, end);
        if i < end {
            assert(s.top[i].better(s.top[end]));
        }
    }
}

proof fn lemma_kept_score(input: ScanInput, s: ScanState, last: int, i: int)
    requires
        consistent(input, s, last),
        0 <= i < s.top.len(),
    ensures
        s.top[i].score.is_sum(),
        !s.top[i].score.is_nan_spec(),
        s.top[i].row_id <= last,
        s.top[i].score == score_at(input, s.top[i].row_id),
{
    assert(matches_to(input, last)(s.top[i].row_id));
    lemma_full_score(input, s.top[i].row_id);
}

/// A document that no essential term holds loses to all that are kept.
proof fn lemma_undiscovered(input: ScanInput, s: ScanState, last: int, row: u64)
    requires
        consistent(input, s, last),
        row > last,
        is_match(input.terms, input.require_all, row),
        forall|t: int|
            0 <= t < input.terms.len() && input.essential(s).contains(t as usize) ==> !has_row(
                (#[trigger] input.terms[t]).postings,
                row,
            ),
    ensures
        beaten(s.top, input.limit, RankedDoc { row_id: row, score: score_at(input, row) }),
{
    let n = input.terms.len();
    let split = input.split(s) as int;
    let order = input.order();
    let parts = full_parts(input, row);
    let bounds = input.ordered_ceilings();
    crate::maxscore::lemma_order(ceilings(input.terms), n);
    lemma_prefix_hopeless(bounds, s.threshold, sum_factor(n), 0);
    let t = choose|t: int| 0 <= t < n && has_row((#[trigger] input.terms[t]).postings, row);
    assert(split > 0) by {
        if split == 0 {
            assert(input.essential(s) == order);
            assert(order.contains(t as usize));
        }
    }
    lemma_parts(input, row);
    let ess = picked(parts, order.skip(split));
    assert forall|j: int| 0 <= j < ess.len() implies (#[trigger] ess[j]).number().code == 0 by {
        let i = order[split + j] as int;
        assert(order.skip(split)[j] == order[split + j]);
        assert(input.essential(s).contains(i as usize));
        assert(!has_row(input.terms[i].postings, row));
        assert(tf_at(input.terms[i].postings, row).at_most(Binary32::zero_spec()));
    }
    assert(raised(ess) =~= ess);
    lemma_total_of_zeros(ess);
    assert(picked(ceilings(input.terms), order.take(split)) =~= bounds.take(split));
    lemma_full_score(input, row);
    law_cannot_compete_is_sound(parts, ceilings(input.terms), order, split, s.threshold);
    lemma_beaten(input, s, last, row);
}

/// An essential term holds a row that is not before the scan only at or behind its head.
proof fn lemma_row_at_head(term: TermModel, position: nat, last: int, row: u64)
    requires
        ascending(term.postings),
        cursor_at(term, position, last),
        row > last,
        match term.head_at(position) {
            Some(head) => head >= row,
            None => true,
        },
    ensures
        has_row(term.postings, row) <==> term.head_at(position) == Some(row),
        term.head_at(position) == Some(row) ==> tf_at(term.postings, row)
            == term.postings[position as int].1,
        term.head_at(position) != Some(row) ==> tf_at(term.postings, row) == Binary32::zero_spec(),
{
    if term.head_at(position) == Some(row) {
        lemma_tf_at(term.postings, position as int);
    } else if has_row(term.postings, row) {
        let p = choose|p: int| 0 <= p < term.postings.len() && (#[trigger] term.postings[p]).0 == row;
        assert(p >= position);
        if p > position {
            assert(term.postings[position as int].0 < term.postings[p].0);
        }
    }
}

/// The candidate's parts are those of its exact score.
proof fn lemma_candidate_parts(input: ScanInput, s: ScanState, last: int)
    requires
        in_step(input, s, last),
        input.next(s) > last,
    ensures
        input.parts(s, input.next(s)) == full_parts(input, input.next(s)),
        forall|t: int|
            0 <= t < input.terms.len() ==> #[trigger] input.tf_read(s, t, input.next(s)) == tf_at(
                input.terms[t].postings,
                input.next(s),
            ),
{
    let row = input.next(s);
    let ess = input.essential(s);
    input.lemma_lowest_head(s.positions, ess);
    assert forall|t: int| 0 <= t < input.terms.len() implies #[trigger] input.tf_read(s, t, row)
        == tf_at(input.terms[t].postings, row) by {
        if ess.contains(t as usize) {
            assert(ascending(input.terms[t].postings));
            assert(cursor_at(input.terms[t], s.positions[t], last));
            let j = choose|j: int| 0 <= j < ess.len() && ess[j] == t as usize;
            assert(input.terms[ess[j] as int] == input.terms[t]);
            lemma_row_at_head(input.terms[t], s.positions[t], last, row);
        }
    }
    assert(input.parts(s, row) =~= full_parts(input, row));
}

/// A candidate lies behind the one before, and some term holds it.
proof fn lemma_candidate(input: ScanInput, s: ScanState, last: int)
    requires
        in_step(input, s, last),
        input.next(s) != u64::MAX,
    ensures
        input.next(s) > last,
        exists|t: int|
            0 <= t < input.terms.len() && has_row(
                (#[trigger] input.terms[t]).postings,
                input.next(s),
            ),
{
    let row = input.next(s);
    let ess = input.essential(s);
    input.lemma_split_range(s);
    input.lemma_lowest_head(s.positions, ess);
    let j = choose|j: int|
        0 <= j < ess.len() && input.terms[(#[trigger] ess[j]) as int].head_at(
            s.positions[ess[j] as int],
        ) == Some(row);
    let t = ess[j] as int;
    assert(ess[j] == input.order()[input.split(s) + j]);
    assert(ess.contains(t as usize));
    assert(cursor_at(input.terms[t], s.positions[t], last));
    assert(input.terms[t].postings[s.positions[t] as int].0 == row);
    assert(has_row(input.terms[t].postings, row));
}

/// No essential term holds a row between the candidate before and the next.
proof fn lemma_no_essential_between(input: ScanInput, s: ScanState, last: int, r: u64, t: int)
    requires
        in_step(input, s, last),
        last < r,
        r < input.next(s) || input.next(s) == u64::MAX,
        0 <= t < input.terms.len(),
        input.essential(s).contains(t as usize),
    ensures
        !has_row(input.terms[t].postings, r),
{
    let ess = input.essential(s);
    let term = input.terms[t];
    input.lemma_lowest_head(s.positions, ess);
    assert(ascending(term.postings));
    assert(cursor_at(term, s.positions[t], last));
    let j = choose|j: int| 0 <= j < ess.len() && ess[j] == t as usize;
    assert(input.terms[ess[j] as int] == term);
    if r < u64::MAX {
        lemma_row_at_head(term, s.positions[t], last, r);
    }
}

/// The matches before the candidate.
proof fn lemma_before_candidate(input: ScanInput, s: ScanState, last: int)
    requires
        consistent(input, s, last),
    ensures
        is_top_k(
            s.top,
            matches_to(input, if input.next(s) == u64::MAX { u64::MAX as int } else { input.next(s) - 1 }),
            scores(input),
            input.limit,
        ),
{
    let row = input.next(s);
    let ess = input.essential(s);
    let to: int = if row == u64::MAX {
        u64::MAX as int
    } else {
        row - 1
    };
    if row != u64::MAX {
        lemma_candidate(input, s, last);
    }
    let (before, after) = (matches_to(input, last), matches_to(input, to));
    assert forall|r: u64| #[trigger] before(r) implies after(r) by {
        assert(row == u64::MAX || row > last);
    }
    assert forall|r: u64| #[trigger] after(r) implies before(r) || beaten(
        s.top,
        input.limit,
        RankedDoc { row_id: r, score: scores(input)(r) },
    ) by {
        if r > last {
            assert forall|t: int|
                0 <= t < input.terms.len() && ess.contains(t as usize) implies !has_row(
                (#[trigger] input.terms[t]).postings,
                r,
            ) by {
                lemma_no_essential_between(input, s, last, r, t);
            }
            lemma_undiscovered(input, s, last, r);
        }
    }
    lemma_top_k_skip(s.top, before, after, scores(input), input.limit);
}

/// What is collected is what is kept of the best.
proof fn lemma_collected(input: ScanInput, s: ScanState, last: int, doc: RankedDoc)
    requires
        consistent(input, s, last),
        doc.row_id > last,
        doc.score.is_sum(),
        !doc.score.is_nan_spec(),
    ensures
        collected(s.top, s.threshold, input.limit, doc).0 == kept(s.top, doc, input.limit),
{
    let top = s.top;
    crate::ranking::lemma_place_range(top, doc);
    if top.len() < input.limit {
    } else if top.len() == 0 {
        assert(filed(top, doc).drop_last() =~= top);
    } else {
        lemma_kept_score(input, s, last, top.len() - 1);
        if top.last().score.before(doc.score) {
            let init = top.drop_last();
            crate::ranking::lemma_place_range(init, doc);
            assert(place_same(top, doc));
            assert(filed(top, doc).drop_last() =~= filed(init, doc));
        } else {
            assert(top.last().better(doc));
            assert(filed(top, doc).drop_last() =~= top);
        }
    }
}

/// Where a document goes that ranks before the last one.
spec fn place_same(top: Seq<RankedDoc>, doc: RankedDoc) -> bool {
    crate::ranking::place_in(top, doc) == crate::ranking::place_in(top.drop_last(), doc)
}

/// A candidate is dropped for a missing term exactly if it is no match.
proof fn lemma_candidate_matches(input: ScanInput, s: ScanState, last: int)
    requires
        in_step(input, s, last),
        input.next(s) != u64::MAX,
    ensures
        is_match(input.terms, input.require_all, input.next(s)) <==> !(input.require_all
            && input.lacks_term(s, input.next(s))),
{
    let row = input.next(s);
    lemma_candidate(input, s, last);
    lemma_candidate_parts(input, s, last);
    if input.require_all {
        assert forall|t: int| 0 <= t < input.terms.len() implies tf_at(
            (#[trigger] input.terms[t]).postings,
            row,
        ) == input.tf_read(s, t, row) by {}
        if input.lacks_term(s, row) {
            let t = choose|t: int|
                0 <= t < input.terms.len() && (#[trigger] input.tf_read(s, t, row)).at_most(
                    Binary32::zero_spec(),
                );
            assert(tf_at(input.terms[t].postings, row).at_most(Binary32::zero_spec()));
        }
    }
}

/// A hopeless candidate loses to all that are kept.
proof fn lemma_hopeless(input: ScanInput, s: ScanState, last: int)
    requires
        consistent(input, s, last),
        input.next(s) != u64::MAX,
        input.hopeless(s, input.next(s)),
        is_match(input.terms, input.require_all, input.next(s)),
    ensures
        beaten(
            s.top,
            input.limit,
            RankedDoc { row_id: input.next(s), score: score_at(input, input.next(s)) },
        ),
{
    let row = input.next(s);
    let split = input.split(s) as int;
    let order = input.order();
    lemma_candidate(input, s, last);
    lemma_candidate_parts(input, s, last);
    lemma_full_score(input, row);
    input.lemma_split_range(s);
    assert(picked(ceilings(input.terms), order.take(split)) =~= input.ordered_ceilings().take(
        split,
    ));
    lemma_parts(input, row);
    if input.out_of_bounds(s, raised(picked(input.parts(s, row), input.essential(s)))) {
        law_cannot_compete_is_sound(
            full_parts(input, row),
            ceilings(input.terms),
            order,
            split,
            s.threshold,
        );
    }
    lemma_beaten(input, s, last, row);
}

/// A bound that rules a candidate out is overruled only by a better score: the
/// candidate is skipped if no essential term lowers its score, and also if some
/// does but the score does not exceed the threshold.
pub proof fn law_bound_yields_only_to_the_score(input: ScanInput, s: ScanState, row: u64)
    requires
        regular(input.terms),
        input.out_of_bounds(s, picked(input.parts(s, row), input.essential(s))),
        (forall|j: int|
            0 <= j < input.essential(s).len() ==> !input.parts(s, row)[(
            #[trigger] input.essential(s)[j]) as int].before(Binary32::zero_spec())) || total(
            input.parts(s, row),
        ).at_most(s.threshold),
    ensures
        input.hopeless(s, row),
{
    let ess = input.essential(s);
    let parts = input.parts(s, row);
    input.lemma_split_range(s);
    if exists|j: int|
        0 <= j < ess.len() && parts[(#[trigger] ess[j]) as int].before(Binary32::zero_spec()) {
        let j = choose|j: int|
            0 <= j < ess.len() && parts[(#[trigger] ess[j]) as int].before(Binary32::zero_spec());
        assert(ess[j] == input.order()[input.split(s) + j]);
        let t = ess[j] as int;
        let term = input.terms[t];
        assert(regular_term(term));
        let tf = input.tf_read(s, t, row);
        let w = bm25_weight(input.avg_doc_length, tf, (input.lengths)(row));
        law_doc_weight_range(input.avg_doc_length, tf, (input.lengths)(row));
        if term.idf.key() >= 0 {
            lemma_times_monotone(term.idf, w, w);
        }
        lemma_all_essential(input, s, input.split(s) + j);
    } else {
        assert(raised(picked(parts, ess)) =~= picked(parts, ess));
    }
}

/// Where a term with a ceiling of zero is essential, all terms are.
proof fn lemma_all_essential(input: ScanInput, s: ScanState, i: int)
    requires
        regular(input.terms),
        s.top.len() >= input.limit,
        input.split(s) <= i < input.terms.len(),
        input.ordered_ceilings()[i] == Binary32::zero_spec(),
    ensures
        input.split(s) == 0,
{
    let n = input.terms.len();
    let bounds = input.ordered_ceilings();
    let factor = sum_factor(n);
    input.lemma_split_range(s);
    if input.split(s) > 0 {
        assert forall|t: int| 0 <= t < ceilings(input.terms).len() implies !(
        #[trigger] ceilings(input.terms)[t]).is_nan_spec() by {
            assert(regular_term(input.terms[t]));
        }
        assert forall|k: int| 0 <= k <= i implies #[trigger] bounds[k]
            == Binary32::zero_spec() by {
            let t = input.order()[k] as int;
            assert(regular_term(input.terms[t]));
            lemma_ceiling_is_a_number(input.terms[t].idf);
            lemma_ceiling_sign(input.terms[t].idf);
            if k < i {
                law_order_ascends(ceilings(input.terms), n, k, i);
            }
        }
        assert forall|k: int| 1 <= k <= i + 1 implies #[trigger] ceiling_total(bounds.take(k))
            == Binary64::zero_spec() by {
            assert forall|q: int| 0 <= q < k implies #[trigger] bounds.take(k)[q]
                == Binary32::zero_spec() by {
                assert(bounds.take(k)[q] == bounds[q]);
            }
            lemma_zero_ceilings(bounds.take(k));
        }
        assert(ceiling_total(bounds.take(1)) == Binary64::zero_spec());
        assert(cannot_compete(Binary32::zero_spec(), Binary64::zero_spec(), s.threshold, factor));
        lemma_prefix_at_least(bounds, s.threshold, factor, 0, (i + 1) as nat);
    }
}

proof fn lemma_prefix_at_least(
    bounds: Seq<Binary32>,
    floor: Binary32,
    factor: Binary64,
    from: nat,
    to: nat,
)
    requires
        from <= to <= bounds.len(),
        forall|k: int|
            1 <= k <= to ==> #[trigger] ceiling_total(bounds.take(k)) == Binary64::zero_spec(),
        cannot_compete(Binary32::zero_spec(), Binary64::zero_spec(), floor, factor),
    ensures
        hopeless_prefix(bounds, floor, factor, from) >= to,
    decreases to - from,
{
    if from < to {
        assert(ceiling_total(bounds.take(from as int + 1)) == Binary64::zero_spec());
        lemma_prefix_at_least(bounds, floor, factor, from + 1, to);
    } else {
        lemma_prefix_hopeless(bounds, floor, factor, from);
    }
}

/// A ceiling has no minus sign.
proof fn lemma_ceiling_sign(idf: Binary32)
    ensures
        ceiling_of(idf).is_score(),
{
    lemma_formats();
    reveal(Binary32::times);
}

/// What a step does to the documents kept.
#[verifier::rlimit(60)]
proof fn lemma_step_top(input: ScanInput, s: ScanState, last: int)
    requires
        consistent(input, s, last),
        input.next(s) != u64::MAX,
    ensures
        is_top_k(
            input.step(s).top,
            matches_to(input, input.next(s) as int),
            scores(input),
            input.limit,
        ),
{
    let row = input.next(s);
    let doc = RankedDoc { row_id: row, score: score_at(input, row) };
    let (before, after) = (matches_to(input, row - 1), matches_to(input, row as int));
    lemma_candidate(input, s, last);
    lemma_candidate_matches(input, s, last);
    lemma_before_candidate(input, s, last);
    if input.hopeless(s, row) {
        if is_match(input.terms, input.require_all, row) {
            lemma_hopeless(input, s, last);
        }
        lemma_top_k_skip(s.top, before, after, scores(input), input.limit);
    } else if input.require_all && input.lacks_term(s, row) {
        lemma_top_k_skip(s.top, before, after, scores(input), input.limit);
    } else {
        lemma_candidate_parts(input, s, last);
        lemma_full_score(input, row);
        lemma_collected(input, s, last, doc);
        lemma_top_k_add(s.top, before, after, scores(input), input.limit, row);
        assert(scores(input)(row) == doc.score);
    }
}

/// A step keeps the scan consistent.
proof fn lemma_step(input: ScanInput, s: ScanState, last: int)
    requires
        consistent(input, s, last),
        input.next(s) != u64::MAX,
    ensures
        consistent(input, input.step(s), input.next(s) as int),
{
    lemma_step_top(input, s, last);
    lemma_step_ahead(input, s, last);
    lemma_step_cursors(input, s, last);
}

/// A step moves the cursors past its candidate.
proof fn lemma_step_cursors(input: ScanInput, s: ScanState, last: int)
    requires
        in_step(input, s, last),
        input.next(s) != u64::MAX,
        input.split(s) <= input.split(input.step(s)),
    ensures
        in_step(input, input.step(s), input.next(s) as int),
        input.next(s) > last,
{
    let row = input.next(s);
    let s2 = input.step(s);
    let ess = input.essential(s);
    lemma_candidate(input, s, last);
    input.lemma_split_range(s);
    input.lemma_split_range(s2);
    assert(s2.positions == input.advanced(s, row));
    input.lemma_lowest_head(s.positions, ess);
    assert forall|t: int|
        0 <= t < input.terms.len() && input.essential(s2).contains(t as usize) implies cursor_at(
        input.terms[t],
        #[trigger] s2.positions[t],
        row as int,
    ) by {
        let (d, d2) = (input.split(s) as int, input.split(s2) as int);
        let j = choose|j: int|
            0 <= j < input.essential(s2).len() && input.essential(s2)[j] == t as usize;
        assert(input.order()[d2 + j] == t as usize);
        assert(ess[d2 + j - d] == t as usize);
        assert(ess.contains(t as usize));
        let term = input.terms[t];
        assert(cursor_at(term, s.positions[t], last));
        assert(ascending(term.postings));
        assert(input.terms[ess[d2 + j - d] as int] == term);
        lemma_cursor_past(term, s.positions[t], last, row);
    }
}

/// A cursor after a candidate that its head does not lie before.
proof fn lemma_cursor_past(term: TermModel, position: nat, last: int, row: u64)
    requires
        ascending(term.postings),
        cursor_at(term, position, last),
        row > last,
        match term.head_at(position) {
            Some(head) => head >= row,
            None => true,
        },
    ensures
        term.head_at(position) == Some(row) ==> cursor_at(term, position + 1, row as int),
        term.head_at(position) != Some(row) ==> cursor_at(term, position, row as int),
{
    if position < term.postings.len() {
        let head = term.postings[position as int].0;
        assert forall|p: int| position < p < term.postings.len() implies (
        #[trigger] term.postings[p]).0 > head by {}
    }
}

/// The scan finds the matches that the exhaustive search finds: on regular
/// terms, with weights of either sign, whose cursors are at their start, what it
/// keeps is the best of the matches by their exact scores, equal scores by
/// ascending row id. The scores have to be numbers.
pub proof fn law_maxscore_is_exact(input: ScanInput, positions: Seq<nat>)
    requires
        regular(input.terms),
        numeric_scores(input),
        positions.len() == input.terms.len(),
        forall|t: int| 0 <= t < positions.len() ==> #[trigger] positions[t] == 0,
    ensures
        is_top_k(
            input.run(ScanInput::start(positions)).top,
            matching(input.terms, input.require_all),
            scoring(input.terms, input.avg_doc_length, input.lengths),
            input.limit,
        ),
{
    let s = ScanInput::start(positions);
    lemma_start(input, positions);
    lemma_run(input, s, -1);
}

proof fn lemma_start(input: ScanInput, positions: Seq<nat>)
    requires
        regular(input.terms),
        numeric_scores(input),
        positions.len() == input.terms.len(),
        forall|t: int| 0 <= t < positions.len() ==> #[trigger] positions[t] == 0,
    ensures
        consistent(input, ScanInput::start(positions), -1),
{
    lemma_regular_ascends(input.terms);
    lemma_start_ahead(input, positions);
    lemma_regular_is_scannable(input.terms);
}

proof fn lemma_regular_ascends(terms: Seq<TermModel>)
    requires
        regular(terms),
    ensures
        all_ascend(terms),
{
    assert forall|t: int| 0 <= t < terms.len() implies ascending(
        (#[trigger] terms[t]).postings,
    ) by {
        assert(regular_term(terms[t]));
    }
}

proof fn lemma_regular_is_scannable(terms: Seq<TermModel>)
    requires
        regular(terms),
    ensures
        scannable(terms),
{
    assert forall|t: int| 0 <= t < terms.len() implies ascending((#[trigger] terms[t]).postings)
        && !has_row(terms[t].postings, u64::MAX) by {
        assert(regular_term(terms[t]));
    }
}

proof fn lemma_run(input: ScanInput, s: ScanState, last: int)
    requires
        consistent(input, s, last),
    ensures
        is_top_k(
            input.run(s).top,
            matching(input.terms, input.require_all),
            scoring(input.terms, input.avg_doc_length, input.lengths),
            input.limit,
        ),
    decreases input.remaining(s.positions, input.terms.len()),
{
    if input.next(s) == u64::MAX {
        lemma_before_candidate(input, s, last);
        lemma_top_k_skip(
            s.top,
            matches_to(input, u64::MAX as int),
            matching(input.terms, input.require_all),
            scores(input),
            input.limit,
        );
    } else {
        lemma_step(input, s, last);
        input.lemma_step_consumes(s);
        lemma_run(input, input.step(s), input.next(s) as int);
    }
}

/// Every candidate is skipped, scored, or, where all terms are required,
/// dropped for a missing one.
pub proof fn law_candidates_are_accounted_for(input: ScanInput, positions: Seq<nat>)
    requires
        input.terms.len() <= usize::MAX,
    ensures
        ({
            let end = input.run(ScanInput::start(positions));
            &&& end.pruned + end.scored <= end.discovered
            &&& !input.require_all ==> end.pruned + end.scored == end.discovered
        }),
{
    lemma_accounting(input, ScanInput::start(positions));
}

proof fn lemma_accounting(input: ScanInput, s: ScanState)
    requires
        input.terms.len() <= usize::MAX,
        s.pruned + s.scored <= s.discovered,
        !input.require_all ==> s.pruned + s.scored == s.discovered,
    ensures
        input.run(s).pruned + input.run(s).scored <= input.run(s).discovered,
        !input.require_all ==> input.run(s).pruned + input.run(s).scored
            == input.run(s).discovered,
    decreases input.remaining(s.positions, input.terms.len()),
{
    if input.next(s) != u64::MAX {
        input.lemma_step_consumes(s);
        lemma_accounting(input, input.step(s));
    }
}

/// A scan that cannot keep enough documents skips none: every one that is not
/// dropped for a missing term is scored and kept.
pub proof fn law_without_limit_nothing_is_pruned(input: ScanInput, positions: Seq<nat>)
    requires
        input.terms.len() <= usize::MAX,
        input.limit > input.remaining(positions, input.terms.len()),
    ensures
        ({
            let end = input.run(ScanInput::start(positions));
            &&& end.pruned == 0
            &&& end.top.len() == end.scored
            &&& !input.require_all ==> end.scored == end.discovered
        }),
{
    lemma_unlimited(input, ScanInput::start(positions));
    law_candidates_are_accounted_for(input, positions);
}

proof fn lemma_unlimited(input: ScanInput, s: ScanState)
    requires
        input.terms.len() <= usize::MAX,
        s.pruned == 0,
        s.top.len() == s.scored,
        s.scored + input.remaining(s.positions, input.terms.len()) < input.limit,
    ensures
        input.run(s).pruned == 0,
        input.run(s).top.len() == input.run(s).scored,
    decreases input.remaining(s.positions, input.terms.len()),
{
    if input.next(s) != u64::MAX {
        input.lemma_step_consumes(s);
        let row = input.next(s);
        let doc = RankedDoc { row_id: row, score: total(input.parts(s, row)) };
        crate::ranking::lemma_place_range(s.top, doc);
        lemma_unlimited(input, input.step(s));
    }
}

/// A scan that cannot keep enough documents finds all matches by their exact
/// scores, whatever the signs of the weights.
pub proof fn law_without_limit_all_are_found(input: ScanInput, positions: Seq<nat>)
    requires
        scannable(input.terms),
        finite_weights(input.terms),
        positions.len() == input.terms.len(),
        forall|t: int| 0 <= t < positions.len() ==> #[trigger] positions[t] == 0,
        input.limit > input.remaining(positions, input.terms.len()),
    ensures
        is_top_k(
            input.run(ScanInput::start(positions)).top,
            matching(input.terms, input.require_all),
            scoring(input.terms, input.avg_doc_length, input.lengths),
            input.limit,
        ),
{
    lemma_unlimited_run(input, ScanInput::start(positions), -1);
}

#[verifier::rlimit(60)]
proof fn lemma_unlimited_run(input: ScanInput, s: ScanState, last: int)
    requires
        in_step(input, s, last),
        finite_weights(input.terms),
        s.top.len() + input.remaining(s.positions, input.terms.len()) < input.limit,
        is_top_k(s.top, matches_to(input, last), scores(input), input.limit),
    ensures
        is_top_k(
            input.run(s).top,
            matching(input.terms, input.require_all),
            scores(input),
            input.limit,
        ),
    decreases input.remaining(s.positions, input.terms.len()),
{
    let row = input.next(s);
    let to: int = if row == u64::MAX {
        u64::MAX as int
    } else {
        row - 1
    };
    input.lemma_split_range(s);
    if row != u64::MAX {
        lemma_candidate(input, s, last);
    }
    let (past, before) = (matches_to(input, last), matches_to(input, to));
    assert forall|r: u64| #[trigger] before(r) implies past(r) by {
        if r > last {
            let t = choose|t: int|
                0 <= t < input.terms.len() && has_row((#[trigger] input.terms[t]).postings, r);
            assert(input.essential(s) =~= input.order());
            assert(input.order().contains(t as usize));
            lemma_no_essential_between(input, s, last, r, t);
        }
    }
    assert forall|r: u64| #[trigger] past(r) implies before(r) by {
        assert(row == u64::MAX || row > last);
    }
    lemma_top_k_skip(s.top, past, before, scores(input), input.limit);
    if row == u64::MAX {
        lemma_top_k_skip(
            s.top,
            before,
            matching(input.terms, input.require_all),
            scores(input),
            input.limit,
        );
    } else {
        let after = matches_to(input, row as int);
        let doc = RankedDoc { row_id: row, score: score_at(input, row) };
        lemma_candidate_matches(input, s, last);
        lemma_candidate_parts(input, s, last);
        law_absent_terms_add_nothing(input, row);
        crate::ranking::lemma_place_range(s.top, doc);
        input.lemma_step_consumes(s);
        input.lemma_split_range(input.step(s));
        lemma_step_cursors(input, s, last);
        if input.require_all && input.lacks_term(s, row) {
            lemma_top_k_skip(s.top, before, after, scores(input), input.limit);
        } else {
            lemma_top_k_add(s.top, before, after, scores(input), input.limit, row);
            assert(scores(input)(row) == doc.score);
            assert(input.step(s).top == kept(s.top, doc, input.limit));
        }
        lemma_unlimited_run(input, input.step(s), row as int);
    }
}

/// The terms of a query are regular where their weights are finite.
pub proof fn law_query_terms_are_regular(
    columns: Seq<CombinedFieldColumn>,
    tokens: Seq<String>,
    selected: Set<u64>,
    weights: Seq<(String, Binary32)>,
)
    requires
        distinct(tokens).len() <= usize::MAX,
        forall|i: int|
            0 <= i < distinct(tokens).len() ==> (#[trigger] listed_weight(
                weights,
                distinct(tokens)[i],
            )).is_finite(),
    ensures
        regular(query_terms(columns, tokens, selected, weights)),
{
    let terms = query_terms(columns, tokens, selected, weights);
    let names = distinct(tokens);
    assert forall|t: int| 0 <= t < terms.len() implies regular_term(#[trigger] terms[t]) by {
        let parts = contributions(sources_of(all_partitions(columns), names[t]), selected);
        lemma_merged(parts);
        lemma_ceiling_is_a_number(terms[t].idf);
        assert(has_row(terms[t].postings, u64::MAX) <==> has_row(parts, u64::MAX));
        if has_row(parts, u64::MAX) {
            law_only_live_selected_rows(
                sources_of(all_partitions(columns), names[t]),
                selected,
                u64::MAX,
            );
        }
    }
}

/// Where the weights are finite and the scores are numbers, the pruned scan over
/// a query's terms keeps exactly what the exhaustive search returns, document for
/// document and score for score.
pub proof fn law_pruned_search_agrees(
    columns: Seq<CombinedFieldColumn>,
    tokens: Seq<String>,
    selected: Set<u64>,
    weights: Seq<(String, Binary32)>,
    input: ScanInput,
    positions: Seq<nat>,
    found: Seq<RankedDoc>,
)
    requires
        distinct(tokens).len() <= usize::MAX,
        forall|i: int|
            0 <= i < distinct(tokens).len() ==> (#[trigger] listed_weight(
                weights,
                distinct(tokens)[i],
            )).is_finite(),
        input.terms == query_terms(columns, tokens, selected, weights),
        input.lengths == blended_lengths(all_partitions(columns)),
        numeric_scores(input),
        positions.len() == input.terms.len(),
        forall|t: int| 0 <= t < positions.len() ==> #[trigger] positions[t] == 0,
        is_top_k(
            found,
            matching(input.terms, input.require_all),
            scoring(input.terms, input.avg_doc_length, input.lengths),
            input.limit,
        ),
    ensures
        input.run(ScanInput::start(positions)).top == found,
{
    law_query_terms_are_regular(columns, tokens, selected, weights);
    law_maxscore_is_exact(input, positions);
    law_top_k_is_unique(
        input.run(ScanInput::start(positions)).top,
        found,
        matching(input.terms, input.require_all),
        scoring(input.terms, input.avg_doc_length, input.lengths),
        input.limit,
    );
}

/// What the scan keeps of regular terms, said of their postings: each document is
/// at a row that some term has a posting for, and its score is the sum, from the
/// left, of weight times document weight over the terms with a positive frequency
/// there, each product whole.
pub proof fn law_scan_keeps_sums_of_products(
    input: ScanInput,
    positions: Seq<nat>,
    i: int,
) -> (sums: Seq<Binary32>)
    requires
        regular(input.terms),
        numeric_scores(input),
        positions.len() == input.terms.len(),
        forall|t: int| 0 <= t < positions.len() ==> #[trigger] positions[t] == 0,
        0 <= i < input.run(ScanInput::start(positions)).top.len(),
    ensures
        ({
            let doc = input.run(ScanInput::start(positions)).top[i];
            &&& is_sum_of_products(
                Seq::new(input.terms.len(), |t: int| input.terms[t].idf),
                Seq::new(input.terms.len(), |t: int| tf_at(input.terms[t].postings, doc.row_id)),
                input.avg_doc_length,
                (input.lengths)(doc.row_id),
                sums,
            )
            &&& doc.score == sums.last()
            &&& exists|t: int, p: int|
                0 <= t < input.terms.len() && 0 <= p < input.terms[t].postings.len() && (
                #[trigger] input.terms[t].postings[p]).0 == doc.row_id
        }),
{
    law_maxscore_is_exact(input, positions);
    let doc = input.run(ScanInput::start(positions)).top[i];
    assert(matching(input.terms, input.require_all)(doc.row_id));
    let t = choose|t: int|
        0 <= t < input.terms.len() && has_row((#[trigger] input.terms[t]).postings, doc.row_id);
    let postings = input.terms[t].postings;
    let p = choose|p: int| 0 <= p < postings.len() && (#[trigger] postings[p]).0 == doc.row_id;
    assert(input.terms[t].postings[p].0 == doc.row_id);
    law_score_is_sum_of_products(input.terms, input.avg_doc_length, input.lengths, doc.row_id)
}

/// A posting's frequency is read as it stands, and a row without one has none.
pub proof fn law_frequency_is_that_of_the_posting(postings: Seq<(u64, Binary32)>, row: u64)
    requires
        ascending(postings),
    ensures
        forall|p: int|
            0 <= p < postings.len() && (#[trigger] postings[p]).0 == row ==> tf_at(postings, row)
                == postings[p].1,
        (forall|p: int| 0 <= p < postings.len() ==> (#[trigger] postings[p]).0 != row) ==> tf_at(
            postings,
            row,
        ).bits == 0,
{
    assert forall|p: int| 0 <= p < postings.len() && (#[trigger] postings[p]).0 == row implies tf_at(
        postings,
        row,
    ) == postings[p].1 by {
        lemma_tf_at(postings, p);
    }
}

/// Whatever the weights and the scores: the document that a step scores is at the
/// smallest row that an essential cursor sits on, and its score is the sum, from
/// the left, of each term's weight times the document's weight. Every other
/// document that is kept was kept before.
pub proof fn law_step_scores_whole_products(input: ScanInput, s: ScanState)
    requires
        input.terms.len() <= usize::MAX,
        input.step(s).scored > s.scored,
    ensures
        ({
            let row = input.next(s);
            let products = Seq::new(
                input.terms.len(),
                |t: int|
                    input.terms[t].idf.times(
                        bm25_weight(
                            input.avg_doc_length,
                            input.tf_read(s, t, row),
                            (input.lengths)(row),
                        ),
                    ),
            );
            forall|i: int|
                0 <= i < input.step(s).top.len() ==> (#[trigger] input.step(s).top[i]) == (
                RankedDoc { row_id: row, score: total(products) }) || s.top.contains(
                    input.step(s).top[i],
                )
        }),
        s.top.len() < input.limit ==> input.step(s).top.len() == s.top.len() + 1,
        s.top.len() >= input.limit ==> input.step(s).top.len() == s.top.len(),
{
    let row = input.next(s);
    let products = Seq::new(
        input.terms.len(),
        |t: int|
            input.terms[t].idf.times(
                bm25_weight(
                    input.avg_doc_length,
                    input.tf_read(s, t, row),
                    (input.lengths)(row),
                ),
            ),
    );
    assert(input.parts(s, row) =~= products);
    let doc = RankedDoc { row_id: row, score: total(products) };
    let top = input.step(s).top;
    crate::ranking::lemma_place_range(s.top, doc);
    crate::ranking::lemma_place_range(s.top.drop_last(), doc);
    let init = s.top.drop_last();
    let (p, p0) = (
        crate::ranking::place_in(s.top, doc),
        crate::ranking::place_in(init, doc),
    );
    assert forall|i: int| 0 <= i < top.len() implies (#[trigger] top[i]) == doc || s.top.contains(
        top[i],
    ) by {
        if top == filed(s.top, doc) {
            if i < p {
                assert(top[i] == s.top[i]);
            } else if i > p {
                assert(top[i] == s.top[i - 1]);
            }
        } else if top == filed(init, doc) && s.top.len() > 0 {
            if i < p0 {
                assert(top[i] == s.top[i]);
            } else if i > p0 {
                assert(top[i] == s.top[i - 1]);
            }
        } else {
            assert(top == s.top);
        }
    }
}

/// Which terms are non-essential once enough documents are kept: the longest run
/// of leading terms, by ascending ceiling, such that no part of it from the first
/// on could beat the threshold.
pub proof fn law_split_is_the_longest(input: ScanInput, s: ScanState, k: int)
    requires
        input.terms.len() <= usize::MAX,
        s.top.len() >= input.limit,
    ensures
        ({
            let bounds = picked(
                Seq::new(input.terms.len(), |t: int| input.terms[t].ceiling),
                input.order(),
            );
            let split = input.split(s);
            &&& 0 <= split <= input.terms.len()
            &&& 0 < k <= split ==> cannot_compete(
                Binary32::zero_spec(),
                ceiling_total(bounds.take(k)),
                s.threshold,
                sum_factor(input.terms.len()),
            )
            &&& split < input.terms.len() ==> !cannot_compete(
                Binary32::zero_spec(),
                ceiling_total(bounds.take(split as int + 1)),
                s.threshold,
                sum_factor(input.terms.len()),
            )
        }),
{
    let bounds = input.ordered_ceilings();
    input.lemma_split_range(s);
    assert(bounds =~= picked(
        Seq::new(input.terms.len(), |t: int| input.terms[t].ceiling),
        input.order(),
    ));
    lemma_prefix_longest(bounds, s.threshold, sum_factor(input.terms.len()), 0, k);
}

proof fn lemma_prefix_longest(
    bounds: Seq<Binary32>,
    floor: Binary32,
    factor: Binary64,
    from: nat,
    k: int,
)
    requires
        from <= bounds.len(),
    ensures
        ({
            let end = hopeless_prefix(bounds, floor, factor, from);
            &&& from < k <= end ==> cannot_compete(
                Binary32::zero_spec(),
                ceiling_total(bounds.take(k)),
                floor,
                factor,
            )
            &&& end < bounds.len() ==> !cannot_compete(
                Binary32::zero_spec(),
                ceiling_total(bounds.take(end as int + 1)),
                floor,
                factor,
            )
        }),
    decreases bounds.len() - from,
{
    if from < bounds.len() && cannot_compete(
        Binary32::zero_spec(),
        ceiling_total(bounds.take(from as int + 1)),
        floor,
        factor,
    ) {
        lemma_prefix_longest(bounds, floor, factor, from + 1, k);
    }
}

} // verus!
