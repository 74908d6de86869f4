use combined_fields::binary::Binary32;
use combined_fields::cursor::{CombinedTermPostings, MaterializedTerm, TermCursor};
use combined_fields::documents::AddressKeyedDocuments;
use combined_fields::maxscore::{combined_maxscore, term_upper_bound, MaxscoreStats};
use combined_fields::ranking::RankedDoc;
use combined_fields::scorer::{bm25_doc_weight_upper_bound, k1, CombinedFieldsBM25Scorer};
use combined_fields::search::{
    score_all_candidates, CombinedFieldColumn, LoadedIndex, LoadedPartition, PartitionLengths,
};

const K1: f32 = 1.2;

fn b(x: f32) -> Binary32 {
    Binary32::from_bits(x.to_bits())
}

fn f(x: Binary32) -> f32 {
    f32::from_bits(x.to_bits())
}

/// One column in which the documents of `rows` rows have the given lengths.
fn column(dl: impl Fn(u64) -> u32, rows: u64) -> Vec<CombinedFieldColumn> {
    let lengths: Vec<u32> = (0..rows).map(dl).collect();
    vec![CombinedFieldColumn {
        column: "text".to_string(),
        weight: b(1.0),
        indices: vec![LoadedIndex {
            partitions: vec![LoadedPartition {
                docs: AddressKeyedDocuments::new((0..rows).collect(), &lengths),
                is_legacy: false,
                postings: Vec::new(),
            }],
        }],
    }]
}

fn dl_of(row_id: u64) -> u32 {
    8 + 4 * (row_id % 4) as u32
}

fn scorer(avg_doc_length: f32) -> CombinedFieldsBM25Scorer {
    CombinedFieldsBM25Scorer::new(b(avg_doc_length), Vec::new())
}

fn test_scorer() -> CombinedFieldsBM25Scorer {
    scorer(12.0)
}

fn idf(token_docs: usize, num_docs: usize) -> f32 {
    let (n, df) = (num_docs as f32, token_docs as f32);
    ((n - df + 0.5) / (df + 0.5) + 1.0).ln()
}

fn postings(idf: f32, entries: &[(u64, f32)]) -> CombinedTermPostings {
    CombinedTermPostings {
        idf: b(idf),
        upper_bound: term_upper_bound(b(idf)),
        postings: entries.iter().map(|(row, tf)| (*row, b(*tf))).collect(),
    }
}

fn term(idf: f32, entries: &[(u64, f32)]) -> MaterializedTerm {
    MaterializedTerm::new(postings(idf, entries))
}

fn rows_with(count: u64, tf: f32) -> Vec<(u64, f32)> {
    (0..count).map(|row| (row, tf)).collect()
}

fn bits(docs: &[RankedDoc]) -> Vec<u32> {
    docs.iter().map(|doc| doc.score.to_bits()).collect()
}

fn exact_topk_scores<F: Fn(u64) -> u32>(
    terms: Vec<MaterializedTerm>,
    dl: F,
    limit: usize,
    all: bool,
    scorer: &CombinedFieldsBM25Scorer,
) -> Vec<u32> {
    let terms: Vec<CombinedTermPostings> = terms.into_iter().map(|t| t.postings).collect();
    let columns = column(dl, 1000);
    let lengths = PartitionLengths::new(&columns);
    bits(&score_all_candidates(&terms, &lengths, limit, all, scorer))
}

fn maxscore_scores<F: Fn(u64) -> u32>(
    mut terms: Vec<MaterializedTerm>,
    dl: F,
    limit: usize,
    all: bool,
    scorer: &CombinedFieldsBM25Scorer,
) -> (Vec<u32>, MaxscoreStats) {
    let columns = column(dl, 1000);
    let lengths = PartitionLengths::new(&columns);
    let (top, stats) = combined_maxscore(&mut terms, &lengths, limit, all, scorer);
    (bits(&top), stats)
}

fn scan(
    cursors: &mut Vec<MaterializedTerm>,
    limit: usize,
    all: bool,
) -> (Vec<RankedDoc>, MaxscoreStats) {
    let columns = column(dl_of, 200);
    combined_maxscore(cursors, &PartitionLengths::new(&columns), limit, all, &test_scorer())
}

#[test]
fn test_combined_maxscore_matches_exact_scan_or() {
    let scorer = test_scorer();
    let build = || {
        vec![
            term(5.0, &[(1, 3.0), (2, 1.0), (3, 2.0), (17, 1.0)]),
            term(1.5, &[(1, 1.0), (3, 1.0), (5, 1.0), (8, 2.0), (17, 1.0)]),
            term(0.05, &rows_with(40, 1.0)),
        ]
    };
    for limit in [1usize, 2, 3, 5, 10, 20, 50] {
        let expected = exact_topk_scores(build(), dl_of, limit, false, &scorer);
        let (actual, _stats) = maxscore_scores(build(), dl_of, limit, false, &scorer);
        assert_eq!(actual, expected, "OR top-{limit} scores diverged from exact scan");
        assert_eq!(actual.len(), limit.min(40));
    }
}

#[test]
fn test_combined_maxscore_ties_keep_lowest_row_ids() {
    let tied: Vec<(u64, f32)> = (0..6u64).map(|i| (i * 4, 1.0)).collect();
    for limit in [1usize, 3, 5] {
        let mut cursors = vec![term(5.0, &tied)];
        let (top, stats) = scan(&mut cursors, limit, false);
        let hits: Vec<u64> = top.iter().map(|doc| doc.row_id).collect();
        let expected: Vec<u64> = tied.iter().take(limit).map(|(row_id, _)| *row_id).collect();
        assert_eq!(
            hits, expected,
            "top-{limit} over a full tie must be the lowest row ids, ascending"
        );
        assert_eq!(
            stats.discovered,
            tied.len() as u64,
            "top-{limit} did not discover every tied candidate"
        );
    }
}

#[test]
fn test_combined_maxscore_matches_exact_scan_and() {
    let scorer = test_scorer();
    let build = || {
        vec![
            term(5.0, &[(1, 3.0), (2, 1.0), (3, 2.0), (17, 1.0)]),
            term(1.5, &[(1, 1.0), (3, 1.0), (5, 1.0), (17, 1.0)]),
        ]
    };
    for limit in [1usize, 2, 3, 10] {
        let expected = exact_topk_scores(build(), dl_of, limit, true, &scorer);
        let (actual, _stats) = maxscore_scores(build(), dl_of, limit, true, &scorer);
        assert_eq!(actual, expected, "AND top-{limit} scores diverged from exact scan");
        // Only rows 1, 3 and 17 have both terms.
        assert!(actual.len() <= 3);
        assert_eq!(actual.len(), limit.min(3));
    }
}

#[test]
fn test_combined_maxscore_no_limit_is_exact_scan() {
    let scorer = test_scorer();
    let build = || {
        vec![
            term(5.0, &[(1, 3.0), (2, 1.0), (3, 2.0)]),
            term(0.05, &rows_with(30, 1.0)),
        ]
    };
    let expected = exact_topk_scores(build(), dl_of, usize::MAX, false, &scorer);
    let (actual, stats) = maxscore_scores(build(), dl_of, usize::MAX, false, &scorer);
    assert_eq!(actual, expected);
    assert_eq!(stats.pruned, 0, "no limit must not prune");
    assert_eq!(stats.scored, 30);
    assert_eq!(stats.discovered, 30);
}

#[test]
fn test_combined_maxscore_discovery_pruning() {
    let scorer = test_scorer();
    let build = || {
        vec![
            term(6.0, &[(1, 3.0), (2, 3.0), (3, 3.0), (4, 3.0), (5, 3.0)]),
            term(0.05, &rows_with(1000, 1.0)),
        ]
    };
    let union = 1000u64;
    let (actual, stats) = maxscore_scores(build(), dl_of, 3, false, &scorer);
    let expected = exact_topk_scores(build(), dl_of, 3, false, &scorer);
    assert_eq!(actual, expected, "pruned run must still match the exact top-k");
    assert!(
        stats.discovered <= 20,
        "expected heavy discovery pruning, discovered {} of {union}",
        stats.discovered
    );
}

#[test]
fn test_combined_maxscore_per_candidate_pruning() {
    let scorer = test_scorer();
    let build = || {
        vec![
            term(8.0, &[(1, 10.0), (2, 10.0), (100, 1.0)]),
            term(0.1, &rows_with(50, 1.0)),
        ]
    };
    let (actual, stats) = maxscore_scores(build(), dl_of, 2, false, &scorer);
    let expected = exact_topk_scores(build(), dl_of, 2, false, &scorer);
    assert_eq!(actual, expected, "pruned run must still match the exact top-k");
    assert!(
        stats.pruned >= 1,
        "expected the per-candidate upper-bound test to fire, stats={stats:?}"
    );
}

#[test]
fn test_combined_maxscore_ceiling_is_conservative() {
    const FIRST: (u32, u32) = (91_135_840, 3_324_876_276);
    const BETTER: (u32, u32) = (1_957_490_862, 2_691_694_489);
    let avg_doc_length = ((u64::from(FIRST.1) + u64::from(BETTER.1)) as f64 / 2.0) as f32;
    let scorer = scorer(avg_doc_length);
    let idf = idf(2, 2);
    let dl_prime = |row_id: u64| -> u32 {
        if row_id == 0 {
            FIRST.1
        } else {
            BETTER.1
        }
    };
    let build = || vec![term(idf, &[(0, FIRST.0 as f32), (1, BETTER.0 as f32)])];

    let naive_ceiling = idf * (K1 + 1.0);
    let first_score = idf * f(scorer.doc_weight(b(FIRST.0 as f32), b(FIRST.1 as f32)));
    let better_score = idf * f(scorer.doc_weight(b(BETTER.0 as f32), b(BETTER.1 as f32)));
    assert_eq!(first_score.to_bits(), naive_ceiling.to_bits());
    assert!(
        better_score > naive_ceiling,
        "fixture no longer exercises the rounding gap: {better_score:e} vs {naive_ceiling:e}"
    );

    let expected = exact_topk_scores(build(), dl_prime, 1, false, &scorer);
    let (actual, _stats) = maxscore_scores(build(), dl_prime, 1, false, &scorer);
    assert_eq!(actual, expected, "MAXSCORE stopped before the higher-scoring row");
    assert_eq!(actual, vec![better_score.to_bits()]);
    assert!(f(term_upper_bound(b(idf))) >= better_score);
}

#[test]
fn test_term_upper_bound_dominates_every_doc_weight() {
    let mut state = 0x9E37_79B9_7F4A_7C15u64;
    let mut next = move || {
        state ^= state << 13;
        state ^= state >> 7;
        state ^= state << 17;
        state
    };
    let high = f(bm25_doc_weight_upper_bound());
    let corners = [0.0f32, 1.0, f32::MIN_POSITIVE, f32::MAX, f32::INFINITY];
    let mut above_naive_saturation = 0u32;
    for avg_doc_length in [
        0.0f32,
        1.0,
        5.0,
        1e9,
        f32::MAX,
        f32::INFINITY,
        f32::NAN,
        -1.0,
    ] {
        let scorer = scorer(avg_doc_length);
        for doc_freq in [1usize, 2, 7, 999, 1000, 4000] {
            let idf = idf(doc_freq, 1000);
            let bound = f(term_upper_bound(b(idf)));
            let check = |tf: f32, dl: f32| -> f32 {
                let weight = f(scorer.doc_weight(b(tf), b(dl)));
                assert!(
                    weight.is_finite() && (0.0..=high).contains(&weight),
                    "doc_weight({tf:e}, {dl:e}) = {weight:e} escaped its range (avgdl={avg_doc_length:e})"
                );
                let contribution = idf.max(0.0) * weight;
                assert!(
                    contribution.is_finite() && contribution <= bound,
                    "contribution {contribution:e} exceeds ceiling {bound:e} for \
                     tf={tf:e} dl={dl:e} avgdl={avg_doc_length:e} df={doc_freq}"
                );
                weight
            };
            for _ in 0..2_000 {
                let tf = (next() % (u64::from(u32::MAX) + 1)) as u32 as f32;
                let dl = (next() % (u64::from(u32::MAX) + 1)) as u32 as f32;
                if check(tf, dl) > K1 + 1.0 {
                    above_naive_saturation += 1;
                }
            }
            for tf in corners {
                for dl in corners {
                    check(tf, dl);
                    check(-tf, dl);
                    check(f32::NAN, dl);
                    check(tf, f32::NAN);
                }
            }
        }
    }
    assert!(
        above_naive_saturation > 0,
        "sweep never reached a doc_weight above K1 + 1"
    );
}

#[test]
fn doc_weight_follows_the_formula() {
    assert_eq!(k1().to_bits(), K1.to_bits());
    let scorer = scorer(12.0);
    for (tf, dl) in [(1.0f32, 8.0f32), (3.0, 12.0), (0.5, 20.0), (10.0, 0.0)] {
        let norm = K1 * (1.0 - 0.75 + 0.75 * dl / 12.0);
        let expected = (K1 + 1.0) * tf / (tf + norm);
        assert_eq!(scorer.doc_weight(b(tf), b(dl)).to_bits(), expected.to_bits());
    }
    // 2.2 * 1 / (1 + 1.2 * (0.25 + 0.75)) = 1
    assert_eq!(f(scorer.doc_weight(b(1.0), b(12.0))), 1.0);
}

#[test]
fn ceiling_of_a_weight() {
    assert_eq!(f(term_upper_bound(b(0.0))), 0.0);
    assert_eq!(f(term_upper_bound(b(-3.0))), 0.0);
    assert_eq!(f(term_upper_bound(b(f32::NAN))), 0.0);
    let high = f(bm25_doc_weight_upper_bound());
    assert_eq!(term_upper_bound(b(3.5)).to_bits(), (3.5f32 * high).to_bits());
}

#[test]
fn zero_limit_keeps_nothing_but_scores() {
    let mut cursors = vec![term(2.0, &rows_with(5, 1.0))];
    let (top, stats) = scan(&mut cursors, 0, false);
    assert!(top.is_empty());
    assert_eq!((stats.discovered, stats.pruned, stats.scored), (5, 0, 5));
}

#[test]
fn scan_consumes_the_essential_cursors() {
    let mut cursors = vec![term(2.0, &[(3, 1.0), (9, 2.0)])];
    let (top, stats) = scan(&mut cursors, 10, false);
    assert_eq!(top.len(), 2);
    assert_eq!(stats.discovered, 2);
    assert_eq!(cursors[0].head(), None);
    assert_eq!(cursors[0].head_tf().to_bits(), 0);
}

#[test]
fn candidates_are_accounted_for() {
    let build = || {
        vec![
            term(5.0, &[(1, 3.0), (2, 1.0), (3, 2.0), (17, 1.0)]),
            term(0.05, &rows_with(40, 1.0)),
        ]
    };
    for limit in [1usize, 2, 7, 100] {
        let (_, or) = maxscore_scores(build(), dl_of, limit, false, &test_scorer());
        assert_eq!(or.pruned + or.scored, or.discovered);
        let (_, and) = maxscore_scores(build(), dl_of, limit, true, &test_scorer());
        assert!(and.pruned + and.scored <= and.discovered);
    }
}

#[test]
fn smaller_limits_give_prefixes() {
    let build = || {
        vec![
            term(5.0, &[(1, 3.0), (2, 1.0), (3, 2.0), (17, 1.0)]),
            term(1.5, &rows_with(60, 2.0)),
        ]
    };
    let top = |limit: usize| -> Vec<RankedDoc> { scan(&mut build(), limit, false).0 };
    let all = top(60);
    for limit in [1usize, 4, 13, 59] {
        assert_eq!(top(limit), all[..limit].to_vec());
    }
}

#[test]
fn unlimited_scan_is_exact_for_negative_weights() {
    let build = || {
        vec![
            term(-1.5, &rows_with(20, 1.0)),
            term(2.0, &[(1, 3.0), (2, 1.0), (19, 2.0)]),
            term(-0.0, &[(4, 1.0)]),
        ]
    };
    let expected = exact_topk_scores(build(), dl_of, 100, false, &test_scorer());
    let (actual, stats) = maxscore_scores(build(), dl_of, 100, false, &test_scorer());
    assert_eq!(actual, expected);
    assert_eq!((stats.pruned, stats.scored), (0, 20));
}

#[test]
fn negative_weights_skip_no_better_document() {
    // The only term lowers scores, and the later row is lowered a little less.
    let build = || vec![term(-1.0, &[(0, 1.0), (4, 0.99999994)])];
    let expected = exact_topk_scores(build(), dl_of, 1, false, &test_scorer());
    let (actual, stats) = maxscore_scores(build(), dl_of, 1, false, &test_scorer());
    assert_eq!(actual, expected);
    assert_eq!(scan(&mut build(), 1, false).0[0].row_id, 4);
    assert_eq!((stats.discovered, stats.pruned, stats.scored), (2, 0, 2));
    // One that is lowered more is skipped.
    let mut lower = vec![term(-1.0, &[(0, 1.0), (4, 3.0)])];
    let (top, stats) = scan(&mut lower, 1, false);
    assert_eq!(top[0].row_id, 0);
    assert_eq!((stats.discovered, stats.pruned, stats.scored), (2, 1, 1));
    // A term that can only lower scores is not essential above zero.
    let mut low = vec![term(2.0, &[(0, 1.0), (4, 1.0)]), term(-9.0, &[(4, 1.0)])];
    let (top, stats) = scan(&mut low, 1, false);
    assert_eq!(top[0].row_id, 0);
    assert_eq!((stats.pruned, stats.scored), (0, 2));
}

#[test]
fn pruned_scan_agrees_on_weights_of_both_signs() {
    let mut state = 0x0fed_cba9_8765_4321u64;
    let mut next = move || {
        state ^= state << 13;
        state ^= state >> 7;
        state ^= state << 17;
        state
    };
    for round in 0..60u64 {
        let num_terms = 1 + (next() % 5) as usize;
        let mut specs: Vec<(f32, Vec<(u64, f32)>)> = Vec::new();
        for _ in 0..num_terms {
            let idf = ((next() % 1000) as f32 - 400.0) / 137.0;
            let modulus = 1 + next() % 7;
            let mut entries: Vec<(u64, f32)> = Vec::new();
            for row in 0..120u64 {
                if next() % modulus == 0 {
                    entries.push((row, (next() % 9) as f32 * 0.5));
                }
            }
            specs.push((idf, entries));
        }
        let build = || -> Vec<MaterializedTerm> {
            specs.iter().map(|(idf, entries)| term(*idf, entries)).collect()
        };
        let limit = 1 + (next() % 12) as usize;
        let all = round % 3 == 0;
        let terms: Vec<CombinedTermPostings> = build().into_iter().map(|t| t.postings).collect();
        let columns = column(dl_of, 200);
        let lengths = PartitionLengths::new(&columns);
        let expected = score_all_candidates(&terms, &lengths, limit, all, &test_scorer());
        let (actual, _) = scan(&mut build(), limit, all);
        assert_eq!(actual, expected);
    }
}

#[test]
fn counters_follow_the_rows() {
    let build = || {
        vec![
            term(5.0, &[(1, 3.0), (2, 1.0), (3, 2.0), (17, 1.0)]),
            term(0.05, &rows_with(40, 1.0)),
        ]
    };
    for limit in [0usize, 1, 3, 39, 40, 41, 100] {
        for all in [false, true] {
            let (top, stats) = scan(&mut build(), limit, all);
            assert!(stats.discovered <= 40);
            assert_eq!(top.len(), limit.min(stats.scored as usize));
            if top.len() < limit {
                assert_eq!((stats.discovered, stats.pruned), (40, 0));
            }
        }
    }
}

#[test]
fn pruned_scan_agrees_on_many_inputs() {
    let mut state = 0x1234_5678_9abc_def1u64;
    let mut next = move || {
        state ^= state << 13;
        state ^= state >> 7;
        state ^= state << 17;
        state
    };
    for round in 0..60u64 {
        let num_terms = 1 + (next() % 5) as usize;
        let mut specs: Vec<(f32, Vec<(u64, f32)>)> = Vec::new();
        for _ in 0..num_terms {
            let idf = (next() % 1000) as f32 / 137.0;
            let modulus = 1 + next() % 7;
            let mut entries: Vec<(u64, f32)> = Vec::new();
            for row in 0..120u64 {
                if next() % modulus == 0 {
                    entries.push((row, (next() % 9) as f32 * 0.5));
                }
            }
            specs.push((idf, entries));
        }
        let build = || -> Vec<MaterializedTerm> {
            specs.iter().map(|(idf, entries)| term(*idf, entries)).collect()
        };
        let limit = 1 + (next() % 12) as usize;
        let all = round % 3 == 0;
        let terms: Vec<CombinedTermPostings> = build().into_iter().map(|t| t.postings).collect();
        let columns = column(dl_of, 200);
        let lengths = PartitionLengths::new(&columns);
        let expected = score_all_candidates(&terms, &lengths, limit, all, &test_scorer());
        let (actual, _) = scan(&mut build(), limit, all);
        assert_eq!(actual, expected);
    }
}
