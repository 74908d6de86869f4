//! How what a search finds depends on its mask and on its operator.
use crate::binary::lemma_plus_positive;
use crate::binary::lemma_times_count_positive;
use crate::binary::Binary32;
use crate::cursor::blended_tf;
use crate::cursor::contributions;
use crate::cursor::has_row;
use crate::cursor::law_only_live_selected_rows;
use crate::cursor::lemma_merged;
use crate::cursor::merged;
use crate::cursor::tf_at;
use crate::cursor::weighted_rows;
use crate::cursor::LoadedSource;
use crate::cursor::TermModel;
use crate::documents::live_rows;
use crate::documents::AddressKeyedDocuments;
use crate::documents::PostingList;
use crate::documents::TOMBSTONE_ROW;
use crate::ranking::holds_all;
use crate::ranking::is_top_k;
use crate::ranking::law_top_k_is_unique;
use crate::ranking::lemma_found_among;
use crate::ranking::RankedDoc;
use crate::search::all_partitions;
use crate::search::blended_lengths;
use crate::search::distinct;
use crate::search::exact_score;
use crate::search::is_match;
use crate::search::matching;
use crate::search::query_terms;
use crate::search::scoring;
use crate::search::sources_of;
use crate::search::CombinedFieldColumn;
use vstd::prelude::*;

verus! {

/// A search finds only rows that the mask selects, and never the address that
/// marks deleted documents.
pub proof fn law_matches_are_live_and_selected(
    columns: Seq<CombinedFieldColumn>,
    tokens: Seq<String>,
    selected: Set<u64>,
    weights: Seq<(String, Binary32)>,
    require_all: bool,
    row: u64,
)
    requires
        is_match(query_terms(columns, tokens, selected, weights), require_all, row),
    ensures
        row != TOMBSTONE_ROW,
        selected.contains(row),
{
    let terms = query_terms(columns, tokens, selected, weights);
    let t = choose|t: int| 0 <= t < terms.len() && has_row((#[trigger] terms[t]).postings, row);
    let sources = sources_of(all_partitions(columns), distinct(tokens)[t]);
    lemma_merged(contributions(sources, selected));
    assert(has_row(contributions(sources, selected), row));
    law_only_live_selected_rows(sources, selected, row);
}

/// Requiring all terms only takes matches away: each one left holds every term.
pub proof fn law_and_narrows_or(terms: Seq<TermModel>, row: u64)
    requires
        is_match(terms, true, row),
    ensures
        is_match(terms, false, row),
        forall|t: int|
            0 <= t < terms.len() ==> has_row((#[trigger] terms[t]).postings, row),
{
    assert forall|t: int| 0 <= t < terms.len() implies has_row(
        (#[trigger] terms[t]).postings,
        row,
    ) by {
        assert(!tf_at(terms[t].postings, row).at_most(Binary32::zero_spec()));
    }
}

/// The parts for `row`, added to `start` in their order.
spec fn added(start: Binary32, parts: Seq<(u64, Binary32)>, row: u64) -> Binary32
    decreases parts.len(),
{
    if parts.len() == 0 {
        start
    } else if parts.last().0 == row {
        added(start, parts.drop_last(), row).plus(parts.last().1)
    } else {
        added(start, parts.drop_last(), row)
    }
}

proof fn lemma_added(a: Seq<(u64, Binary32)>, b: Seq<(u64, Binary32)>, row: u64)
    ensures
        blended_tf(a + b, row) == added(blended_tf(a, row), b, row),
    decreases b.len(),
{
    if b.len() == 0 {
        assert(a + b =~= a);
    } else {
        assert((a + b).drop_last() =~= a + b.drop_last());
        assert((a + b).last() == b.last());
        lemma_added(a, b.drop_last(), row);
    }
}

proof fn lemma_row_in_either(a: Seq<(u64, Binary32)>, b: Seq<(u64, Binary32)>, row: u64)
    ensures
        has_row(a + b, row) <==> has_row(a, row) || has_row(b, row),
{
    let all = a + b;
    if has_row(a, row) {
        let i = choose|i: int| 0 <= i < a.len() && (#[trigger] a[i]).0 == row;
        assert(all[i].0 == row);
    }
    if has_row(b, row) {
        let i = choose|i: int| 0 <= i < b.len() && (#[trigger] b[i]).0 == row;
        assert(all[a.len() + i].0 == row);
    }
    if has_row(all, row) {
        let i = choose|i: int| 0 <= i < all.len() && (#[trigger] all[i]).0 == row;
        if i < a.len() {
            assert(a[i].0 == row);
        } else {
            assert(b[i - a.len()].0 == row);
        }
    }
}

proof fn lemma_row_pushed(a: Seq<(u64, Binary32)>, e: (u64, Binary32), row: u64)
    ensures
        has_row(a.push(e), row) <==> has_row(a, row) || e.0 == row,
{
    let one = seq![e];
    assert(a.push(e) =~= a + one);
    lemma_row_in_either(a, one, row);
    assert(has_row(one, row) <==> e.0 == row) by {
        assert(one[0] == e);
    }
}

/// Two selections that agree on a row let the same of it through.
proof fn lemma_weighted_same(
    rows: Seq<(u64, u32)>,
    a: Set<u64>,
    b: Set<u64>,
    weight: Binary32,
    start: Binary32,
    row: u64,
)
    requires
        a.contains(row) == b.contains(row),
    ensures
        added(start, weighted_rows(rows, a, weight), row) == added(
            start,
            weighted_rows(rows, b, weight),
            row,
        ),
        has_row(weighted_rows(rows, a, weight), row) == has_row(
            weighted_rows(rows, b, weight),
            row,
        ),
    decreases rows.len(),
{
    if rows.len() > 0 {
        let init = rows.drop_last();
        lemma_weighted_same(init, a, b, weight, start, row);
        let e = (rows.last().0, weight.times(Binary32::of_count(rows.last().1)));
        let (wa, wb) = (weighted_rows(init, a, weight), weighted_rows(init, b, weight));
        lemma_row_pushed(wa, e, row);
        lemma_row_pushed(wb, e, row);
        assert(wa.push(e).drop_last() =~= wa);
        assert(wb.push(e).drop_last() =~= wb);
    }
}

proof fn lemma_contributions_same(
    sources: Seq<LoadedSource>,
    a: Set<u64>,
    b: Set<u64>,
    row: u64,
)
    requires
        a.contains(row) == b.contains(row),
    ensures
        blended_tf(contributions(sources, a), row) == blended_tf(contributions(sources, b), row),
        has_row(contributions(sources, a), row) == has_row(contributions(sources, b), row),
    decreases sources.len(),
{
    if sources.len() > 0 {
        let init = sources.drop_last();
        let s = sources.last();
        let rows = live_rows(s.posting, s.docs, s.is_legacy, s.posting.len_spec());
        lemma_contributions_same(init, a, b, row);
        let (ca, cb) = (contributions(init, a), contributions(init, b));
        let (wa, wb) = (weighted_rows(rows, a, s.weight), weighted_rows(rows, b, s.weight));
        lemma_weighted_same(rows, a, b, s.weight, blended_tf(ca, row), row);
        lemma_added(ca, wa, row);
        lemma_added(cb, wb, row);
        lemma_row_in_either(ca, wa, row);
        lemma_row_in_either(cb, wb, row);
    }
}

/// Terms that agree on a row score it alike.
proof fn lemma_same_score(
    a: Seq<TermModel>,
    b: Seq<TermModel>,
    avg_doc_length: Binary32,
    dl: Binary32,
    row: u64,
)
    requires
        a.len() == b.len(),
        forall|t: int|
            0 <= t < a.len() ==> (#[trigger] a[t]).idf == b[t].idf && tf_at(a[t].postings, row)
                == tf_at(b[t].postings, row),
    ensures
        exact_score(a, avg_doc_length, dl, row) == exact_score(b, avg_doc_length, dl, row),
    decreases a.len(),
{
    if a.len() > 0 {
        assert(a.last() == a[a.len() - 1]);
        assert forall|t: int| 0 <= t < a.drop_last().len() implies (#[trigger] a.drop_last()[t]).idf
            == b.drop_last()[t].idf && tf_at(a.drop_last()[t].postings, row) == tf_at(
            b.drop_last()[t].postings,
            row,
        ) by {
            assert(a.drop_last()[t] == a[t]);
        }
        lemma_same_score(a.drop_last(), b.drop_last(), avg_doc_length, dl, row);
    }
}

/// A mask acts row by row: two that agree on a row match it alike and score it
/// alike, whatever they select elsewhere.
pub proof fn law_mask_acts_by_row(
    columns: Seq<CombinedFieldColumn>,
    tokens: Seq<String>,
    a: Set<u64>,
    b: Set<u64>,
    weights: Seq<(String, Binary32)>,
    avg_doc_length: Binary32,
    dl: Binary32,
    require_all: bool,
    row: u64,
)
    requires
        a.contains(row) == b.contains(row),
    ensures
        is_match(query_terms(columns, tokens, a, weights), require_all, row) == is_match(
            query_terms(columns, tokens, b, weights),
            require_all,
            row,
        ),
        exact_score(query_terms(columns, tokens, a, weights), avg_doc_length, dl, row)
            == exact_score(query_terms(columns, tokens, b, weights), avg_doc_length, dl, row),
{
    let (qa, qb) = (
        query_terms(columns, tokens, a, weights),
        query_terms(columns, tokens, b, weights),
    );
    assert forall|t: int| 0 <= t < qa.len() implies (#[trigger] qa[t]).idf == qb[t].idf && tf_at(
        qa[t].postings,
        row,
    ) == tf_at(qb[t].postings, row) && has_row(qa[t].postings, row) == has_row(
        qb[t].postings,
        row,
    ) by {
        let sources = sources_of(all_partitions(columns), distinct(tokens)[t]);
        let (ca, cb) = (contributions(sources, a), contributions(sources, b));
        lemma_contributions_same(sources, a, b, row);
        lemma_merged(ca);
        lemma_merged(cb);
        assert(tf_at(merged(ca), row) == blended_tf(ca, row));
        assert(tf_at(merged(cb), row) == blended_tf(cb, row));
        assert(has_row(merged(ca), row) == has_row(ca, row));
        assert(has_row(merged(cb), row) == has_row(cb, row));
    }
    lemma_same_score(qa, qb, avg_doc_length, dl, row);
    if is_match(qa, require_all, row) {
        lemma_same_match(qa, qb, require_all, row);
    } else if is_match(qb, require_all, row) {
        assert forall|t: int| 0 <= t < qb.len() implies tf_at((#[trigger] qb[t]).postings, row)
            == tf_at(qa[t].postings, row) && has_row(qb[t].postings, row) == has_row(
            qa[t].postings,
            row,
        ) by {
            assert(qa[t].idf == qb[t].idf);
        }
        lemma_same_match(qb, qa, require_all, row);
    }
}

proof fn lemma_same_match(a: Seq<TermModel>, b: Seq<TermModel>, require_all: bool, row: u64)
    requires
        a.len() == b.len(),
        forall|t: int|
            0 <= t < a.len() ==> tf_at((#[trigger] a[t]).postings, row) == tf_at(
                b[t].postings,
                row,
            ) && has_row(a[t].postings, row) == has_row(b[t].postings, row),
        is_match(a, require_all, row),
    ensures
        is_match(b, require_all, row),
{
    let t = choose|t: int| 0 <= t < a.len() && has_row((#[trigger] a[t]).postings, row);
    assert(has_row(b[t].postings, row));
    if require_all {
        assert forall|t: int| 0 <= t < b.len() implies !tf_at(
            (#[trigger] b[t]).postings,
            row,
        ).at_most(Binary32::zero_spec()) by {
            assert(!tf_at(a[t].postings, row).at_most(Binary32::zero_spec()));
        }
    }
}

/// Masking only takes away: where a search has cut no match off, as one without a
/// limit never does, the same search with fewer rows selected finds those of its
/// documents that are still selected, each with the score it had, and no others.
pub proof fn law_mask_only_removes(
    columns: Seq<CombinedFieldColumn>,
    tokens: Seq<String>,
    selected: Set<u64>,
    fewer: Set<u64>,
    weights: Seq<(String, Binary32)>,
    avg_doc_length: Binary32,
    require_all: bool,
    limit: nat,
    found: Seq<RankedDoc>,
    masked: Seq<RankedDoc>,
)
    requires
        fewer.subset_of(selected),
        holds_all(found, matching(query_terms(columns, tokens, selected, weights), require_all)),
        is_top_k(
            found,
            matching(query_terms(columns, tokens, selected, weights), require_all),
            scoring(
                query_terms(columns, tokens, selected, weights),
                avg_doc_length,
                blended_lengths(all_partitions(columns)),
            ),
            limit,
        ),
        is_top_k(
            masked,
            matching(query_terms(columns, tokens, fewer, weights), require_all),
            scoring(
                query_terms(columns, tokens, fewer, weights),
                avg_doc_length,
                blended_lengths(all_partitions(columns)),
            ),
            limit,
        ),
    ensures
        forall|doc: RankedDoc| #[trigger]
            masked.contains(doc) <==> found.contains(doc) && fewer.contains(doc.row_id),
{
    let (qs, qf) = (
        query_terms(columns, tokens, selected, weights),
        query_terms(columns, tokens, fewer, weights),
    );
    let lengths = blended_lengths(all_partitions(columns));
    let (ms, mf) = (matching(qs, require_all), matching(qf, require_all));
    let (ss, sf) = (scoring(qs, avg_doc_length, lengths), scoring(qf, avg_doc_length, lengths));
    assert forall|row: u64| #[trigger] mf(row) implies ms(row) && sf(row) == ss(row)
        && fewer.contains(row) by {
        law_matches_are_live_and_selected(columns, tokens, fewer, weights, require_all, row);
        law_mask_acts_by_row(
            columns,
            tokens,
            selected,
            fewer,
            weights,
            avg_doc_length,
            lengths(row),
            require_all,
            row,
        );
    }
    lemma_found_among(found, ms, ss, masked, mf, sf, limit);
    assert forall|doc: RankedDoc| found.contains(doc) && fewer.contains(
        doc.row_id,
    ) implies #[trigger] masked.contains(doc) by {
        let i = choose|i: int| 0 <= i < found.len() && found[i] == doc;
        assert(ms(found[i].row_id));
        law_mask_acts_by_row(
            columns,
            tokens,
            selected,
            fewer,
            weights,
            avg_doc_length,
            lengths(doc.row_id),
            require_all,
            doc.row_id,
        );
        assert(mf(doc.row_id));
    }
}

/// Requiring all terms only takes away: where a search for any term has cut no
/// match off, as one without a limit never does, the same search for all terms
/// finds those of its documents that hold them all, each with the score it had,
/// and no others.
pub proof fn law_and_only_removes(
    terms: Seq<TermModel>,
    avg_doc_length: Binary32,
    lengths: spec_fn(u64) -> Binary32,
    limit: nat,
    any: Seq<RankedDoc>,
    all: Seq<RankedDoc>,
)
    requires
        holds_all(any, matching(terms, false)),
        is_top_k(any, matching(terms, false), scoring(terms, avg_doc_length, lengths), limit),
        is_top_k(all, matching(terms, true), scoring(terms, avg_doc_length, lengths), limit),
    ensures
        forall|doc: RankedDoc| #[trigger]
            all.contains(doc) <==> any.contains(doc) && is_match(terms, true, doc.row_id),
{
    let (ma, mo) = (matching(terms, true), matching(terms, false));
    let score = scoring(terms, avg_doc_length, lengths);
    assert forall|row: u64| #[trigger] ma(row) implies mo(row) by {
        law_and_narrows_or(terms, row);
    }
    lemma_found_among(any, mo, score, all, ma, score, limit);
    assert forall|doc: RankedDoc| #[trigger]
        all.contains(doc) <==> any.contains(doc) && is_match(terms, true, doc.row_id) by {
        assert(ma(doc.row_id) == is_match(terms, true, doc.row_id));
    }
}

/// Whether a source has a positive weight and only positive frequencies.
pub open spec fn positive_source(source: LoadedSource) -> bool {
    &&& Binary32::zero_spec().before(source.weight)
    &&& forall|i: int|
        0 <= i < source.posting.len_spec() ==> (#[trigger] source.posting.entry_spec(i)).1 > 0
}

/// Parts that are all positive.
spec fn positive_parts(parts: Seq<(u64, Binary32)>) -> bool {
    forall|i: int|
        0 <= i < parts.len() ==> Binary32::zero_spec().before((#[trigger] parts[i]).1)
}

proof fn lemma_positive_rows(
    posting: &PostingList,
    docs: &AddressKeyedDocuments,
    is_legacy: bool,
    n: nat,
)
    requires
        n <= posting.len_spec(),
        forall|i: int| 0 <= i < posting.len_spec() ==> (#[trigger] posting.entry_spec(i)).1 > 0,
    ensures
        forall|k: int|
            0 <= k < live_rows(posting, docs, is_legacy, n).len() ==> (#[trigger] live_rows(
                posting,
                docs,
                is_legacy,
                n,
            )[k]).1 > 0,
    decreases n,
{
    if n > 0 {
        lemma_positive_rows(posting, docs, is_legacy, (n - 1) as nat);
        assert(posting.entry_spec(n - 1).1 > 0);
        let (init, all) = (
            live_rows(posting, docs, is_legacy, (n - 1) as nat),
            live_rows(posting, docs, is_legacy, n),
        );
        assert forall|k: int| 0 <= k < all.len() implies (#[trigger] all[k]).1 > 0 by {
            if k < init.len() {
                assert(all[k] == init[k]);
            }
        }
    }
}

proof fn lemma_positive_weighted(rows: Seq<(u64, u32)>, selected: Set<u64>, weight: Binary32)
    requires
        Binary32::zero_spec().before(weight),
        forall|k: int| 0 <= k < rows.len() ==> (#[trigger] rows[k]).1 > 0,
    ensures
        positive_parts(weighted_rows(rows, selected, weight)),
    decreases rows.len(),
{
    if rows.len() > 0 {
        let init = rows.drop_last();
        assert forall|k: int| 0 <= k < init.len() implies (#[trigger] init[k]).1 > 0 by {
            assert(init[k] == rows[k]);
        }
        lemma_positive_weighted(init, selected, weight);
        assert(rows[rows.len() - 1].1 > 0);
        lemma_times_count_positive(weight, rows.last().1);
    }
}

proof fn lemma_positive_contributions(sources: Seq<LoadedSource>, selected: Set<u64>)
    requires
        forall|i: int| 0 <= i < sources.len() ==> positive_source(#[trigger] sources[i]),
    ensures
        positive_parts(contributions(sources, selected)),
    decreases sources.len(),
{
    if sources.len() > 0 {
        let init = sources.drop_last();
        let s = sources.last();
        assert forall|i: int| 0 <= i < init.len() implies positive_source(#[trigger] init[i]) by {
            assert(init[i] == sources[i]);
        }
        lemma_positive_contributions(init, selected);
        assert(positive_source(sources[sources.len() - 1]));
        lemma_positive_rows(s.posting, s.docs, s.is_legacy, s.posting.len_spec());
        lemma_positive_weighted(
            live_rows(s.posting, s.docs, s.is_legacy, s.posting.len_spec()),
            selected,
            s.weight,
        );
    }
}

proof fn lemma_positive_blend(parts: Seq<(u64, Binary32)>, row: u64)
    requires
        positive_parts(parts),
    ensures
        blended_tf(parts, row).is_score(),
        has_row(parts, row) ==> Binary32::zero_spec().before(blended_tf(parts, row)),
    decreases parts.len(),
{
    if parts.len() > 0 {
        let init = parts.drop_last();
        assert forall|i: int| 0 <= i < init.len() implies Binary32::zero_spec().before(
            (#[trigger] init[i]).1,
        ) by {
            assert(init[i] == parts[i]);
        }
        lemma_positive_blend(init, row);
        assert(Binary32::zero_spec().before(parts[parts.len() - 1].1));
        if parts.last().0 == row {
            lemma_plus_positive(blended_tf(init, row), parts.last().1);
        } else {
            assert(init.push(parts.last()) =~= parts);
            lemma_row_pushed(init, parts.last(), row);
        }
    }
}

/// With a single query term, positive column weights and positive frequencies,
/// requiring all terms changes nothing.
pub proof fn law_single_term_operators_agree(
    columns: Seq<CombinedFieldColumn>,
    tokens: Seq<String>,
    selected: Set<u64>,
    weights: Seq<(String, Binary32)>,
    avg_doc_length: Binary32,
    limit: nat,
    any: Seq<RankedDoc>,
    all: Seq<RankedDoc>,
)
    requires
        distinct(tokens).len() == 1,
        forall|i: int|
            0 <= i < sources_of(all_partitions(columns), distinct(tokens)[0]).len()
                ==> positive_source(
                #[trigger] sources_of(all_partitions(columns), distinct(tokens)[0])[i],
            ),
        is_top_k(
            any,
            matching(query_terms(columns, tokens, selected, weights), false),
            scoring(
                query_terms(columns, tokens, selected, weights),
                avg_doc_length,
                blended_lengths(all_partitions(columns)),
            ),
            limit,
        ),
        is_top_k(
            all,
            matching(query_terms(columns, tokens, selected, weights), true),
            scoring(
                query_terms(columns, tokens, selected, weights),
                avg_doc_length,
                blended_lengths(all_partitions(columns)),
            ),
            limit,
        ),
    ensures
        any == all,
{
    let terms = query_terms(columns, tokens, selected, weights);
    let parts = contributions(sources_of(all_partitions(columns), distinct(tokens)[0]), selected);
    lemma_positive_contributions(
        sources_of(all_partitions(columns), distinct(tokens)[0]),
        selected,
    );
    lemma_merged(parts);
    assert forall|row: u64| is_match(terms, true, row) == is_match(terms, false, row) by {
        if is_match(terms, false, row) {
            assert(terms[0].postings == merged(parts));
            assert(has_row(terms[0].postings, row));
            lemma_positive_blend(parts, row);
            assert(tf_at(merged(parts), row) == blended_tf(parts, row));
            assert forall|t: int| 0 <= t < terms.len() implies !tf_at(
                (#[trigger] terms[t]).postings,
                row,
            ).at_most(Binary32::zero_spec()) by {}
        }
    }
    assert(matching(terms, true) =~= matching(terms, false));
    law_top_k_is_unique(
        any,
        all,
        matching(terms, true),
        scoring(terms, avg_doc_length, blended_lengths(all_partitions(columns))),
        limit,
    );
}

} // verus!
