use combined_fields::binary::Binary32;
use combined_fields::cursor::{build_materialized_term, LoadedSource, MaterializedTerm};
use combined_fields::documents::{AddressKeyedDocuments, DocumentLengths, PostingList};
use combined_fields::maxscore::combined_maxscore;
use combined_fields::ranking::{file_doc, RankedDoc};
use combined_fields::scorer::CombinedFieldsBM25Scorer;
use combined_fields::search::{
    combined_fields_search, unique_terms, CombinedFieldColumn, LoadedIndex, LoadedPartition,
    Operator, PartitionLengths,
};
use lance_select::{RowAddrMask, RowAddrTreeMap};

fn b(x: f32) -> Binary32 {
    Binary32::from_bits(x.to_bits())
}

fn strings(words: &[&str]) -> Vec<String> {
    words.iter().map(|word| word.to_string()).collect()
}

fn partition(lengths: Vec<u32>, postings: Vec<(&str, Vec<(u32, u32)>)>) -> LoadedPartition {
    let rows = (0..lengths.len() as u64).collect();
    LoadedPartition {
        docs: AddressKeyedDocuments::new(rows, &lengths),
        is_legacy: false,
        postings: postings
            .into_iter()
            .map(|(term, entries)| (term.to_string(), PostingList::Compressed(entries)))
            .collect(),
    }
}

/// `title` weighs twice as much as `body`.
fn corpus() -> Vec<CombinedFieldColumn> {
    let title = partition(
        vec![2, 3, 2, 1, 4],
        vec![("red", vec![(0, 1), (2, 1)]), ("fox", vec![(1, 2), (2, 1)])],
    );
    let body = partition(
        vec![10, 5, 7, 9, 3],
        vec![("red", vec![(1, 1), (3, 4)]), ("fox", vec![(0, 1), (4, 1)])],
    );
    vec![
        CombinedFieldColumn {
            column: "title".to_string(),
            weight: b(2.0),
            indices: vec![LoadedIndex { partitions: vec![title] }],
        },
        CombinedFieldColumn {
            column: "body".to_string(),
            weight: b(1.0),
            indices: vec![LoadedIndex { partitions: vec![body] }],
        },
    ]
}

fn scorer() -> CombinedFieldsBM25Scorer {
    CombinedFieldsBM25Scorer::new(
        b(11.0),
        vec![("red".to_string(), b(0.8)), ("fox".to_string(), b(1.1))],
    )
}

fn weight(tf: f32, dl: f32) -> f32 {
    let norm = 1.2f32 * (1.0 - 0.75 + 0.75 * dl / 11.0);
    (1.2f32 + 1.0) * tf / (tf + norm)
}

/// Blended frequencies and lengths of the five documents, by hand.
fn expected_scores() -> Vec<(u64, f32)> {
    let red = [2.0f32, 1.0, 2.0, 4.0, 0.0];
    let fox = [1.0f32, 4.0, 2.0, 0.0, 1.0];
    let dl = [14.0f32, 11.0, 11.0, 11.0, 11.0];
    (0..5)
        .map(|i| {
            let mut score = 0.0f32;
            if red[i] > 0.0 {
                score += 0.8f32 * weight(red[i], dl[i]);
            }
            if fox[i] > 0.0 {
                score += 1.1f32 * weight(fox[i], dl[i]);
            }
            (i as u64, score)
        })
        .collect()
}

fn ranked(mut all: Vec<(u64, f32)>) -> (Vec<u64>, Vec<u32>) {
    all.sort_by(|a, b| b.1.total_cmp(&a.1).then(a.0.cmp(&b.0)));
    all.into_iter().map(|(row, score)| (row, score.to_bits())).unzip()
}

fn search(limit: Option<usize>, operator: Operator, mask: &RowAddrMask) -> (Vec<u64>, Vec<u32>) {
    let (rows, scores) = combined_fields_search(
        &corpus(),
        &strings(&["red", "fox", "red"]),
        limit,
        operator,
        &scorer(),
        mask,
    );
    (rows, scores.into_iter().map(|score| score.to_bits()).collect())
}

#[test]
fn any_term_ranks_the_union() {
    let (rows, scores) = search(None, Operator::Or, &RowAddrMask::all_rows());
    assert_eq!((rows, scores), ranked(expected_scores()));
}

#[test]
fn all_terms_rank_the_intersection() {
    let both: Vec<(u64, f32)> = expected_scores().into_iter().filter(|(row, _)| *row < 3).collect();
    assert_eq!(search(None, Operator::And, &RowAddrMask::all_rows()), ranked(both));
}

#[test]
fn limit_cuts_the_ranking() {
    let (all_rows, all_scores) = ranked(expected_scores());
    for limit in 0..7usize {
        let (rows, scores) = search(Some(limit), Operator::Or, &RowAddrMask::all_rows());
        let n = limit.min(5);
        assert_eq!(rows, all_rows[..n].to_vec());
        assert_eq!(scores, all_scores[..n].to_vec());
    }
}

#[test]
fn masked_rows_are_never_found() {
    let mask = RowAddrMask::all_rows().also_block(RowAddrTreeMap::from_iter([1u64, 3]));
    let kept: Vec<(u64, f32)> =
        expected_scores().into_iter().filter(|(row, _)| *row != 1 && *row != 3).collect();
    assert_eq!(search(None, Operator::Or, &mask), ranked(kept));
    assert_eq!(search(None, Operator::Or, &RowAddrMask::allow_nothing()).0, Vec::<u64>::new());
}

#[test]
fn no_tokens_find_nothing() {
    let (rows, scores) = combined_fields_search(
        &corpus(),
        &Vec::new(),
        None,
        Operator::Or,
        &scorer(),
        &RowAddrMask::all_rows(),
    );
    assert!(rows.is_empty() && scores.is_empty());
}

#[test]
fn unknown_terms_weigh_nothing() {
    let tokens = strings(&["blue"]);
    let (rows, _) = combined_fields_search(
        &corpus(),
        &tokens,
        None,
        Operator::Or,
        &scorer(),
        &RowAddrMask::all_rows(),
    );
    assert!(rows.is_empty());
    assert_eq!(scorer().query_weight("blue").to_bits(), 0);
    assert_eq!(scorer().query_weight("fox").to_bits(), 1.1f32.to_bits());
    // A term that no column holds rules out every document that must hold all.
    let (rows, _) = combined_fields_search(
        &corpus(),
        &strings(&["red", "blue"]),
        None,
        Operator::And,
        &scorer(),
        &RowAddrMask::all_rows(),
    );
    assert!(rows.is_empty());
}

#[test]
fn pruned_scan_finds_what_the_search_finds() {
    let columns = corpus();
    let scorer = scorer();
    let mask = RowAddrMask::all_rows();
    let lengths = PartitionLengths::new(&columns);
    for (limit, all) in [(1usize, false), (2, false), (3, true), (10, false), (2, true)] {
        let mut cursors: Vec<MaterializedTerm> = Vec::new();
        for term in ["red", "fox"] {
            let mut sources = Vec::new();
            for column in &columns {
                let partition = &column.indices[0].partitions[0];
                if let Some(posting) = partition.posting(&term.to_string()) {
                    sources.push(LoadedSource {
                        weight: column.weight,
                        docs: &partition.docs,
                        is_legacy: partition.is_legacy,
                        posting,
                    });
                }
            }
            cursors.push(build_materialized_term(term, &sources, &mask, &scorer));
        }
        let (top, _) = combined_maxscore(&mut cursors, &lengths, limit, all, &scorer);
        let operator = if all { Operator::And } else { Operator::Or };
        let (rows, scores) = combined_fields_search(
            &columns,
            &strings(&["red", "fox"]),
            Some(limit),
            operator,
            &scorer,
            &mask,
        );
        assert_eq!(top.iter().map(|doc| doc.row_id).collect::<Vec<_>>(), rows);
        assert_eq!(top.iter().map(|doc| doc.score).collect::<Vec<_>>(), scores);
    }
}

#[test]
fn lengths_blend_over_partitions() {
    let columns = corpus();
    let lengths = PartitionLengths::new(&columns);
    assert_eq!(lengths.dl_prime(0).to_bits(), 14.0f32.to_bits());
    assert_eq!(lengths.dl_prime(4).to_bits(), 11.0f32.to_bits());
    assert_eq!(lengths.dl_prime(99).to_bits(), 0.0f32.to_bits());
}

#[test]
fn tokens_count_once() {
    assert_eq!(
        unique_terms(&strings(&["b", "a", "b", "c", "a"])),
        strings(&["b", "a", "c"])
    );
    assert_eq!(unique_terms(&Vec::new()), Vec::<String>::new());
}

#[test]
fn documents_file_by_score_then_row() {
    let mut docs = Vec::new();
    for (row, score) in [(5u64, 1.0f32), (3, 2.0), (4, 1.0), (9, 3.0), (1, -0.0), (2, 0.0)] {
        file_doc(&mut docs, RankedDoc::new(row, b(score)));
    }
    let rows: Vec<u64> = docs.iter().map(|doc| doc.row_id).collect();
    assert_eq!(rows, vec![9, 3, 4, 5, 2, 1]);
    assert!(docs[0].ranks_before(&docs[1]));
    assert!(!docs[1].ranks_before(&docs[1]));
}

fn pairs(found: (Vec<u64>, Vec<u32>)) -> Vec<(u64, u32)> {
    found.0.into_iter().zip(found.1).collect()
}

#[test]
fn masking_removes_pairs_and_changes_none() {
    let mask = RowAddrMask::all_rows().also_block(RowAddrTreeMap::from_iter([0u64, 2]));
    for operator in [Operator::And, Operator::Or] {
        let all = pairs(search(None, operator, &RowAddrMask::all_rows()));
        let masked = pairs(search(None, operator, &mask));
        let expected: Vec<(u64, u32)> =
            all.into_iter().filter(|(row, _)| *row != 0 && *row != 2).collect();
        assert_eq!(masked, expected);
    }
}

#[test]
fn requiring_all_terms_changes_no_score() {
    let any = pairs(search(None, Operator::Or, &RowAddrMask::all_rows()));
    let all = pairs(search(None, Operator::And, &RowAddrMask::all_rows()));
    let expected: Vec<(u64, u32)> = any.into_iter().filter(|(row, _)| *row < 3).collect();
    assert_eq!(all, expected);
}

#[test]
fn a_single_term_needs_no_operator() {
    let find = |operator: Operator| {
        combined_fields_search(
            &corpus(),
            &strings(&["fox", "fox"]),
            None,
            operator,
            &scorer(),
            &RowAddrMask::all_rows(),
        )
    };
    let (rows, scores) = find(Operator::Or);
    assert_eq!(rows.len(), 4);
    assert_eq!(find(Operator::And), (rows, scores));
}

#[test]
fn laws_hold_where_the_limit_is_just_enough() {
    // Five documents match any term, so a limit of five cuts none off.
    let any = pairs(search(Some(5), Operator::Or, &RowAddrMask::all_rows()));
    let mask = RowAddrMask::all_rows().also_block(RowAddrTreeMap::from_iter([1u64]));
    let masked: Vec<(u64, u32)> = any.iter().filter(|(row, _)| *row != 1).copied().collect();
    assert_eq!(pairs(search(Some(5), Operator::Or, &mask)), masked);
    let all: Vec<(u64, u32)> = any.iter().filter(|(row, _)| *row < 3).copied().collect();
    assert_eq!(pairs(search(Some(5), Operator::And, &RowAddrMask::all_rows())), all);
}
