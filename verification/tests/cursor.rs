use combined_fields::binary::Binary32;
use combined_fields::cursor::{
    build_materialized_term, CombinedTermPostings, LoadedSource, MaterializedTerm, TermCursor,
};
use combined_fields::documents::{
    live_posting_rows, AddressKeyedDocuments, PostingList, TOMBSTONE_ROW,
};
use combined_fields::search::{
    CombinedFieldColumn, LoadedIndex, LoadedPartition, PartitionLengths,
};
use combined_fields::maxscore::{combined_maxscore, term_upper_bound};
use combined_fields::scorer::CombinedFieldsBM25Scorer;
use lance_core::utils::address::RowAddress;
use lance_select::{RowAddrMask, RowAddrTreeMap};

fn b(x: f32) -> Binary32 {
    Binary32::from_bits(x.to_bits())
}

fn f(x: Binary32) -> f32 {
    f32::from_bits(x.to_bits())
}

/// Documents whose addresses are their ids, but for the dead ones.
fn identity_docs(lengths: Vec<u32>, dead: &[u64]) -> AddressKeyedDocuments {
    let addresses = (0..lengths.len() as u64)
        .map(|id| if dead.contains(&id) { TOMBSTONE_ROW } else { id })
        .collect();
    AddressKeyedDocuments::new(addresses, &lengths)
}

fn entries(term: &MaterializedTerm) -> Vec<(u64, f32)> {
    term.postings.postings.iter().map(|(row, tf)| (*row, f(*tf))).collect()
}

#[test]
fn test_build_materialized_term_merges_legacy_and_compressed() {
    let scorer = CombinedFieldsBM25Scorer::new(b(12.0), Vec::new());
    let legacy = PostingList::Plain(vec![(10u64, 1), (20, 2), (20, 3), (30, 1)]);
    let compressed = PostingList::Compressed(vec![(20, 5), (42, 7)]);
    let docs = identity_docs(vec![1u32; 64], &[]);
    let sources = vec![
        LoadedSource { weight: b(2.0), docs: &docs, is_legacy: true, posting: &legacy },
        LoadedSource { weight: b(1.0), docs: &docs, is_legacy: false, posting: &compressed },
    ];
    let mask = RowAddrMask::all_rows().also_block(RowAddrTreeMap::from_iter([42u64]));
    let term = build_materialized_term("t", &sources, &mask, &scorer);
    // row 10: 2*1 = 2; row 20: 2*2 + 2*3 + 1*5 = 15; row 30: 2*1 = 2.
    assert_eq!(entries(&term), vec![(10, 2.0), (20, 15.0), (30, 2.0)]);
}

#[test]
fn test_build_materialized_term_skips_tombstoned_addresses() {
    const DEAD_ROW: u64 = 20;
    assert_eq!(TOMBSTONE_ROW, RowAddress::TOMBSTONE_ROW);
    let scorer = CombinedFieldsBM25Scorer::new(b(12.0), Vec::new());
    let docs = identity_docs(vec![4u32; 40], &[DEAD_ROW]);
    assert_eq!(
        docs.row_address(DEAD_ROW as u32),
        RowAddress::TOMBSTONE_ROW,
        "the deleted document must keep its slot as a tombstone"
    );
    assert_eq!(docs.doc_length_at(RowAddress::TOMBSTONE_ROW), 0);
    let posting = PostingList::Compressed(vec![(10, 1), (DEAD_ROW as u32, 7), (30, 3)]);
    let sources =
        vec![LoadedSource { weight: b(2.0), docs: &docs, is_legacy: false, posting: &posting }];
    let term = build_materialized_term("t", &sources, &RowAddrMask::default(), &scorer);
    assert_eq!(
        entries(&term),
        vec![(10, 2.0), (30, 6.0)],
        "the tombstoned address must never be accumulated, and the live rows \
         must keep their exact contributions"
    );

    let mut cursors = vec![term];
    let columns = vec![CombinedFieldColumn {
        column: "text".to_string(),
        weight: b(2.0),
        indices: vec![LoadedIndex {
            partitions: vec![LoadedPartition { docs, is_legacy: false, postings: Vec::new() }],
        }],
    }];
    let lengths = PartitionLengths::new(&columns);
    let (top, _) = combined_maxscore(&mut cursors, &lengths, 10, false, &scorer);
    let hits: Vec<(u64, u32)> = top.iter().map(|doc| (doc.row_id, doc.score.to_bits())).collect();
    let expected = |tf: f32| -> u32 {
        scorer.query_weight("t").mul(scorer.doc_weight(b(tf), b(8.0))).to_bits()
    };
    assert_eq!(hits, vec![(10, expected(2.0)), (30, expected(6.0))]);
}

#[test]
fn allow_list_keeps_only_its_rows() {
    let scorer = CombinedFieldsBM25Scorer::new(b(12.0), vec![("t".to_string(), b(1.5))]);
    let docs = identity_docs(vec![1u32; 64], &[]);
    let posting = PostingList::Compressed(vec![(1, 1), (2, 2), (3, 3), (60, 4)]);
    let sources =
        vec![LoadedSource { weight: b(0.5), docs: &docs, is_legacy: false, posting: &posting }];
    let mask = RowAddrMask::from_allowed(RowAddrTreeMap::from_iter([2u64, 60]));
    let term = build_materialized_term("t", &sources, &mask, &scorer);
    assert_eq!(entries(&term), vec![(2, 1.0), (60, 2.0)]);
    assert_eq!(f(term.idf()), 1.5);
    assert_eq!(term.upper_bound().to_bits(), term_upper_bound(b(1.5)).to_bits());
    let nothing = build_materialized_term("t", &sources, &RowAddrMask::allow_nothing(), &scorer);
    assert!(nothing.postings.postings.is_empty());
}

#[test]
fn frequencies_blend_in_source_order() {
    // Rounding makes the order visible: each sum is what the order gives.
    let scorer = CombinedFieldsBM25Scorer::new(b(12.0), Vec::new());
    let docs = identity_docs(vec![1u32; 4], &[]);
    let posting = PostingList::Compressed(vec![(1, 1)]);
    let big = LoadedSource { weight: b(16777216.0), docs: &docs, is_legacy: false, posting: &posting };
    let one = LoadedSource { weight: b(1.0), docs: &docs, is_legacy: false, posting: &posting };
    let also = LoadedSource { weight: b(1.0), docs: &docs, is_legacy: false, posting: &posting };
    let term = build_materialized_term("t", &vec![big, one, also], &RowAddrMask::all_rows(), &scorer);
    assert_eq!(entries(&term), vec![(1, (16777216.0f32 + 1.0) + 1.0)]);
}

#[test]
fn cursor_walks_its_postings() {
    let mut cursor = MaterializedTerm::new(CombinedTermPostings {
        idf: b(2.0),
        upper_bound: term_upper_bound(b(2.0)),
        postings: vec![(4, b(1.0)), (7, b(2.5)), (9, b(3.0))],
    });
    assert_eq!(cursor.head(), Some(4));
    cursor.consume(5);
    assert_eq!(cursor.head(), Some(4));
    cursor.consume(4);
    assert_eq!(cursor.head(), Some(7));
    assert_eq!(f(cursor.head_tf()), 2.5);
    assert_eq!(f(cursor.probe(9)), 3.0);
    assert_eq!(f(cursor.probe(8)), 0.0);
    assert_eq!(f(cursor.probe(4)), 1.0);
    assert_eq!(cursor.head(), Some(7));
    assert_eq!(f(cursor.postings.tf_prime(7)), 2.5);
    assert_eq!(f(cursor.postings.tf_prime(100)), 0.0);
}

#[test]
fn live_rows_of_both_kinds() {
    let docs = AddressKeyedDocuments::new(vec![500, TOMBSTONE_ROW, 700], &vec![3, 4, 5]);
    let compressed = PostingList::Compressed(vec![(0, 1), (1, 2), (2, 3), (9, 4)]);
    assert_eq!(live_posting_rows(&compressed, &docs, false), vec![(500, 1), (700, 3)]);
    let plain = PostingList::Plain(vec![(8, 1), (8, 2), (TOMBSTONE_ROW, 9)]);
    assert_eq!(live_posting_rows(&plain, &docs, true), vec![(8, 1), (8, 2)]);
    assert_eq!(docs.doc_length_at(500), 3);
    assert_eq!(docs.doc_length_at(501), 0);
    assert_eq!(docs.row_address(3), TOMBSTONE_ROW);
}

#[test]
fn tombstones_have_the_reserved_address() {
    assert_eq!(TOMBSTONE_ROW, RowAddress::TOMBSTONE_ROW);
}

#[test]
fn a_full_read_cursor_answers_in_any_order() {
    let mut term = MaterializedTerm::new(CombinedTermPostings {
        idf: b(1.0),
        upper_bound: b(3.0),
        postings: vec![(3, b(1.5)), (8, b(2.5))],
    });
    assert_eq!(term.probe(8), b(2.5));
    assert_eq!(term.probe(3), b(1.5));
    term.consume(8);
    assert_eq!(term.head(), Some(3));
    term.consume(3);
    assert_eq!(term.head(), Some(8));
    term.consume(8);
    assert_eq!(term.head_tf(), b(0.0));
}
