//! The exhaustive search: load every term's postings across the target
//! columns, merge them, and score every candidate.
use crate::binary::Binary32;
use crate::bounds::total;
use crate::cursor::ascending;
use crate::cursor::build_materialized_term;
use crate::cursor::has_row;
use crate::cursor::term_of;
use crate::cursor::tf_at;
use crate::cursor::CombinedTermPostings;
use crate::cursor::LoadedSource;
use crate::cursor::TermModel;
use crate::documents::lengths_of;
use crate::documents::AddressKeyedDocuments;
use crate::documents::DocumentLengths;
use crate::documents::PostingList;
use crate::mask::selected_rows;
use crate::ranking::file_doc;
use crate::ranking::holds_all;
use crate::ranking::is_top_k;
use crate::ranking::kept;
use crate::ranking::law_top_k_means;
use crate::ranking::lemma_holds_all;
use crate::ranking::lemma_top_k_add;
use crate::ranking::RankedDoc;
use crate::scorer::bm25_weight;
use crate::scorer::listed_weight;
use crate::scorer::CombinedFieldsBM25Scorer;
use crate::selection::law_matches_are_live_and_selected;
use lance_select::RowAddrMask;
use std::collections::BTreeSet;
use vstd::prelude::*;

verus! {

/// How the query terms combine across the virtual field.
#[derive(Clone, Copy, Debug, PartialEq, Eq, Structural)]
pub enum Operator {
    /// Every term appears in at least one column.
    And,
    /// Any term does.
    Or,
}

/// One partition of an index: its documents, and the posting list of each
/// query term that it holds.
pub struct LoadedPartition {
    pub docs: AddressKeyedDocuments,
    pub is_legacy: bool,
    pub postings: Vec<(String, PostingList)>,
}

/// One index of a column.
pub struct LoadedIndex {
    pub partitions: Vec<LoadedPartition>,
}

/// A target column with its weight.
pub struct CombinedFieldColumn {
    pub column: String,
    pub weight: Binary32,
    pub indices: Vec<LoadedIndex>,
}

/// The first occurrence of each token.
pub open spec fn distinct(tokens: Seq<String>) -> Seq<Seq<char>>
    decreases tokens.len(),
{
    if tokens.len() == 0 {
        Seq::empty()
    } else {
        let before = distinct(tokens.drop_last());
        if before.contains(tokens.last()@) {
            before
        } else {
            before.push(tokens.last()@)
        }
    }
}

/// What some strings hold.
pub open spec fn texts(strings: Seq<String>) -> Seq<Seq<char>> {
    Seq::new(strings.len(), |i: int| strings[i]@)
}

/// The query's terms: its tokens, each once, in the order of their first occurrence.
pub fn unique_terms(tokens: &Vec<String>) -> (terms: Vec<String>)
    ensures
        texts(terms@) == distinct(tokens@),
        terms@.len() == distinct(tokens@).len(),
        forall|i: int| 0 <= i < terms@.len() ==> (#[trigger] terms@[i])@ == distinct(tokens@)[i],
{
    let mut terms: Vec<String> = Vec::new();
    let mut i: usize = 0;
    proof {
        assert(texts(terms@) =~= distinct(tokens@.take(0)));
    }
    while i < tokens.len()
        invariant
            i <= tokens.len(),
            texts(terms@) == distinct(tokens@.take(i as int)),
        decreases tokens.len() - i,
    {
        let token = &tokens[i];
        let mut known = false;
        let mut j: usize = 0;
        while j < terms.len()
            invariant
                j <= terms.len(),
                known <==> exists|k: int| 0 <= k < j && (#[trigger] terms@[k])@ == token@,
            decreases terms.len() - j,
        {
            if terms[j] == *token {
                known = true;
            }
            j = j + 1;
        }
        proof {
            assert(tokens@.take(i + 1).drop_last() == tokens@.take(i as int));
            assert(tokens@.take(i + 1).last() == token);
            let before = texts(terms@);
            assert(known <==> before.contains(token@)) by {
                if known {
                    let k = choose|k: int| 0 <= k < j && (#[trigger] terms@[k])@ == token@;
                    assert(before[k] == token@);
                }
                if before.contains(token@) {
                    let k = choose|k: int| 0 <= k < before.len() && before[k] == token@;
                    assert(terms@[k]@ == token@);
                }
            }
        }
        if !known {
            let ghost before = terms@;
            let copy = token.clone();
            terms.push(copy);
            proof {
                assert(texts(terms@) =~= texts(before).push(token@));
            }
        }
        i = i + 1;
    }
    proof {
        assert(tokens@.take(tokens@.len() as int) == tokens@);
        assert(texts(terms@).len() == terms@.len());
        assert forall|i: int| 0 <= i < terms@.len() implies (#[trigger] terms@[i])@ == distinct(
            tokens@,
        )[i] by {
            assert(texts(terms@)[i] == terms@[i]@);
        }
    }
    terms
}

/// A query's terms are its tokens, each once.
pub proof fn law_terms_are_distinct_tokens(tokens: Seq<String>)
    ensures
        distinct(tokens).no_duplicates(),
        forall|term: Seq<char>| #[trigger]
            distinct(tokens).contains(term) <==> texts(tokens).contains(term),
        forall|j: int| 0 <= j < tokens.len() ==> distinct(tokens).contains((#[trigger] tokens[j])@),
        forall|i: int|
            0 <= i < distinct(tokens).len() ==> exists|j: int|
                0 <= j < tokens.len() && (#[trigger] tokens[j])@ == #[trigger] distinct(tokens)[i],
    decreases tokens.len(),
{
    if tokens.len() > 0 {
        let init = tokens.drop_last();
        let token = tokens.last()@;
        let before = distinct(init);
        law_terms_are_distinct_tokens(init);
        assert(texts(tokens) =~= texts(init).push(token));
        assert forall|term: Seq<char>| #[trigger]
            distinct(tokens).contains(term) <==> texts(tokens).contains(term) by {
            lemma_push_contains(texts(init), token, term);
            lemma_push_contains(before, token, term);
            assert(before.contains(term) <==> texts(init).contains(term));
        }
    }
    assert forall|j: int| 0 <= j < tokens.len() implies distinct(tokens).contains(
        (#[trigger] tokens[j])@,
    ) by {
        assert(texts(tokens)[j] == tokens[j]@);
    }
    assert forall|i: int| 0 <= i < distinct(tokens).len() implies exists|j: int|
        0 <= j < tokens.len() && (#[trigger] tokens[j])@ == #[trigger] distinct(tokens)[i] by {
        assert(distinct(tokens).contains(distinct(tokens)[i]));
        let j = choose|j: int| 0 <= j < tokens.len() && texts(tokens)[j] == distinct(tokens)[i];
        assert(tokens[j]@ == distinct(tokens)[i]);
    }
}

proof fn lemma_push_contains(s: Seq<Seq<char>>, last: Seq<char>, x: Seq<char>)
    ensures
        s.push(last).contains(x) <==> s.contains(x) || x == last,
{
    let more = s.push(last);
    if s.contains(x) {
        let i = choose|i: int| 0 <= i < s.len() && s[i] == x;
        assert(more[i] == x);
    }
    assert(more[s.len() as int] == last);
}

/// The posting list of a term, the first one if there are several.
pub open spec fn posting_of(postings: Seq<(String, PostingList)>, term: Seq<char>) -> Option<
    PostingList,
>
    decreases postings.len(),
{
    if postings.len() == 0 {
        None
    } else if postings.first().0@ == term {
        Some(postings.first().1)
    } else {
        posting_of(postings.drop_first(), term)
    }
}

impl LoadedPartition {
    /// The posting list of a term, if the partition holds the term.
    pub fn posting(&self, term: &String) -> (posting: Option<&PostingList>)
        ensures
            posting is Some <==> posting_of(self.postings@, term@) is Some,
            posting matches Some(p) ==> posting_of(self.postings@, term@) == Some(*p),
    {
        let mut i: usize = 0;
        proof {
            assert(self.postings@.skip(0) == self.postings@);
        }
        while i < self.postings.len()
            invariant
                i <= self.postings.len(),
                posting_of(self.postings@, term@) == posting_of(
                    self.postings@.skip(i as int),
                    term@,
                ),
            decreases self.postings.len() - i,
        {
            proof {
                let rest = self.postings@.skip(i as int);
                assert(rest.first() == self.postings@[i as int]);
                assert(rest.drop_first() == self.postings@.skip(i + 1));
            }
            if self.postings[i].0 == *term {
                return Some(&self.postings[i].1);
            }
            i = i + 1;
        }
        None
    }
}

/// The partitions of some indices, with the weight of their column.
pub open spec fn index_partitions(indices: Seq<LoadedIndex>, weight: Binary32) -> Seq<
    (Binary32, LoadedPartition),
>
    decreases indices.len(),
{
    if indices.len() == 0 {
        Seq::empty()
    } else {
        let own = indices.last().partitions@;
        index_partitions(indices.drop_last(), weight) + Seq::new(
            own.len(),
            |i: int| (weight, own[i]),
        )
    }
}

/// Every partition with the weight of its column, column by column and index by index.
pub open spec fn all_partitions(columns: Seq<CombinedFieldColumn>) -> Seq<
    (Binary32, LoadedPartition),
>
    decreases columns.len(),
{
    if columns.len() == 0 {
        Seq::empty()
    } else {
        all_partitions(columns.drop_last()) + index_partitions(
            columns.last().indices@,
            columns.last().weight,
        )
    }
}

/// The posting lists of a term, partition by partition.
pub open spec fn sources_of(
    partitions: Seq<(Binary32, LoadedPartition)>,
    term: Seq<char>,
) -> Seq<LoadedSource<'static>>
    decreases partitions.len(),
{
    if partitions.len() == 0 {
        Seq::empty()
    } else {
        let before = sources_of(partitions.drop_last(), term);
        let (weight, partition) = partitions.last();
        match posting_of(partition.postings@, term) {
            Some(posting) => before.push(
                LoadedSource {
                    weight,
                    docs: &partition.docs,
                    is_legacy: partition.is_legacy,
                    posting: &posting,
                },
            ),
            None => before,
        }
    }
}

/// Whether the document at `row` is a match: some term has a posting for it,
/// and, if all terms are required, each has a positive frequency there.
pub open spec fn is_match(terms: Seq<TermModel>, require_all: bool, row: u64) -> bool {
    &&& exists|t: int| 0 <= t < terms.len() && has_row((#[trigger] terms[t]).postings, row)
    &&& require_all ==> forall|t: int|
        0 <= t < terms.len() ==> !tf_at((#[trigger] terms[t]).postings, row).at_most(
            Binary32::zero_spec(),
        )
}

/// The score of the document at `row`: over the terms with a positive
/// frequency there, the sum of term weight times document weight.
pub open spec fn exact_score(
    terms: Seq<TermModel>,
    avg_doc_length: Binary32,
    dl: Binary32,
    row: u64,
) -> Binary32
    decreases terms.len(),
{
    if terms.len() == 0 {
        Binary32::zero_spec()
    } else {
        let before = exact_score(terms.drop_last(), avg_doc_length, dl, row);
        let tf = tf_at(terms.last().postings, row);
        if tf.at_most(Binary32::zero_spec()) {
            before
        } else {
            before.plus(terms.last().idf.times(bm25_weight(avg_doc_length, tf, dl)))
        }
    }
}

/// Which rows match.
pub open spec fn matching(terms: Seq<TermModel>, require_all: bool) -> spec_fn(u64) -> bool {
    |row: u64| is_match(terms, require_all, row)
}

/// What each row scores.
pub open spec fn scoring(
    terms: Seq<TermModel>,
    avg_doc_length: Binary32,
    lengths: spec_fn(u64) -> Binary32,
) -> spec_fn(u64) -> Binary32 {
    |row: u64| exact_score(terms, avg_doc_length, lengths(row), row)
}

/// The terms that some postings stand for.
pub open spec fn posting_models(terms: Seq<CombinedTermPostings>) -> Seq<TermModel> {
    Seq::new(terms.len(), |t: int| terms[t].model())
}

/// Every row that some term has a posting for.
fn candidate_rows(terms: &Vec<CombinedTermPostings>) -> (rows: BTreeSet<u64>)
    ensures
        forall|row: u64| #[trigger]
            rows@.contains(row) <==> exists|t: int|
                0 <= t < terms@.len() && has_row((#[trigger] terms@[t]).postings@, row),
{
    let mut rows: BTreeSet<u64> = BTreeSet::new();
    let mut t: usize = 0;
    while t < terms.len()
        invariant
            t <= terms.len(),
            forall|row: u64| #[trigger]
                rows@.contains(row) <==> exists|k: int|
                    0 <= k < t && has_row((#[trigger] terms@[k]).postings@, row),
        decreases terms.len() - t,
    {
        let ghost before = rows@;
        let postings = &terms[t].postings;
        let mut i: usize = 0;
        while i < postings.len()
            invariant
                i <= postings.len(),
                forall|row: u64| #[trigger]
                    rows@.contains(row) <==> before.contains(row) || exists|k: int|
                        0 <= k < i && (#[trigger] postings@[k]).0 == row,
            decreases postings.len() - i,
        {
            let ghost rows0 = rows@;
            rows.insert(postings[i].0);
            proof {
                assert forall|row: u64| #[trigger]
                    rows@.contains(row) <==> before.contains(row) || exists|k: int|
                        0 <= k < i + 1 && (#[trigger] postings@[k]).0 == row by {
                    assert(rows@.contains(row) <==> rows0.contains(row) || row
                        == postings@[i as int].0);
                }
            }
            i = i + 1;
        }
        proof {
            assert forall|row: u64| #[trigger]
                rows@.contains(row) <==> exists|k: int|
                    0 <= k < t + 1 && has_row((#[trigger] terms@[k]).postings@, row) by {
                assert(before.contains(row) <==> exists|k: int|
                    0 <= k < t && has_row((#[trigger] terms@[k]).postings@, row));
                assert(has_row(terms@[t as int].postings@, row) <==> exists|k: int|
                    0 <= k < postings@.len() && (#[trigger] postings@[k]).0 == row);
                if rows@.contains(row) && !before.contains(row) {
                    assert(has_row(terms@[t as int].postings@, row));
                }
                if exists|k: int|
                    0 <= k < t + 1 && has_row((#[trigger] terms@[k]).postings@, row) {
                    let k = choose|k: int|
                        0 <= k < t + 1 && has_row((#[trigger] terms@[k]).postings@, row);
                    if k < t {
                        assert(before.contains(row));
                    }
                }
            }
        }
        t = t + 1;
    }
    rows
}

/// Scores one candidate: its score, and whether some term is missing.
fn score_candidate(
    terms: &Vec<CombinedTermPostings>,
    row_id: u64,
    dl: Binary32,
    scorer: &CombinedFieldsBM25Scorer,
) -> (r: (Binary32, bool))
    requires
        forall|t: int|
            0 <= t < terms@.len() ==> ascending((#[trigger] posting_models(terms@)[t]).postings),
    ensures
        r.0 == exact_score(posting_models(terms@), scorer.avg_doc_length, dl, row_id),
        r.1 <==> exists|t: int|
            0 <= t < terms@.len() && tf_at(
                (#[trigger] posting_models(terms@)[t]).postings,
                row_id,
            ).at_most(Binary32::zero_spec()),
{
    let ghost models = posting_models(terms@);
    let zero = Binary32::zero();
    let mut score = Binary32::zero();
    let mut missing = false;
    let mut t: usize = 0;
    while t < terms.len()
        invariant
            t <= terms.len(),
            models == posting_models(terms@),
            zero == Binary32::zero_spec(),
            forall|t: int|
                0 <= t < terms@.len() ==> ascending((#[trigger] posting_models(terms@)[t]).postings),
            score == exact_score(models.take(t as int), scorer.avg_doc_length, dl, row_id),
            missing <==> exists|k: int|
                0 <= k < t && tf_at((#[trigger] models[k]).postings, row_id).at_most(
                    Binary32::zero_spec(),
                ),
        decreases terms.len() - t,
    {
        proof {
            assert(ascending(models[t as int].postings));
            assert(models.take(t + 1).drop_last() == models.take(t as int));
            assert(models.take(t + 1).last() == models[t as int]);
        }
        let tf = terms[t].tf_prime(row_id);
        if tf.le(zero) {
            missing = true;
        } else {
            score = score.add(terms[t].idf.mul(scorer.doc_weight(tf, dl)));
        }
        t = t + 1;
    }
    proof {
        assert(models.take(terms@.len() as int) == models);
    }
    (score, missing)
}

/// Scores every candidate and keeps the best `limit`, best first.
#[verifier::rlimit(60)]
pub fn score_all_candidates<L: DocumentLengths>(
    terms: &Vec<CombinedTermPostings>,
    lengths: &L,
    limit: usize,
    require_all_terms: bool,
    scorer: &CombinedFieldsBM25Scorer,
) -> (top: Vec<RankedDoc>)
    requires
        forall|t: int|
            0 <= t < terms@.len() ==> ascending((#[trigger] posting_models(terms@)[t]).postings),
    ensures
        is_top_k(
            top@,
            matching(posting_models(terms@), require_all_terms),
            scoring(posting_models(terms@), scorer.avg_doc_length, lengths_of(lengths)),
            limit as nat,
        ),
        limit == usize::MAX ==> holds_all(
            top@,
            matching(posting_models(terms@), require_all_terms),
        ),
{
    let ghost models = posting_models(terms@);
    let ghost matches = matching(models, require_all_terms);
    let ghost scores = scoring(models, scorer.avg_doc_length, lengths_of(lengths));
    let rows = candidate_rows(terms);
    let mut top: Vec<RankedDoc> = Vec::new();
    let visits = rows.iter();
    let ghost all = vstd::std_specs::iter::IteratorSpec::remaining(&visits);
    proof {
        assert forall|k: int| 0 <= k < all.len() implies rows@.contains(*(#[trigger] all[k])) by {
            assert(all.unref()[k] == *all[k]);
            assert(all.unref().to_set().contains(*all[k]));
        }
    }
    for visit in iter: visits
        invariant
            iter.seq() == all,
            all.no_duplicates(),
            models == posting_models(terms@),
            matches == matching(models, require_all_terms),
            scores == scoring(models, scorer.avg_doc_length, lengths_of(lengths)),
            forall|k: int| 0 <= k < all.len() ==> rows@.contains(*(#[trigger] all[k])),
            forall|row: u64| #[trigger]
                rows@.contains(row) <==> exists|t: int|
                    0 <= t < terms@.len() && has_row((#[trigger] terms@[t]).postings@, row),
            forall|t: int|
                0 <= t < terms@.len() ==> ascending((#[trigger] posting_models(terms@)[t]).postings),
            is_top_k(top@, visited(matches, all, iter.index()), scores, limit as nat),
    {
        let row_id = *visit;
        let ghost k = iter.index();
        let dl = lengths.dl_prime(row_id);
        let (score, missing) = score_candidate(terms, row_id, dl, scorer);
        let ghost before = visited(matches, all, k);
        let ghost after = visited(matches, all, k + 1);
        proof {
            assert(dl == lengths_of(lengths)(row_id));
            assert(all[k] == visit);
            assert(rows@.contains(row_id));
            let t = choose|t: int|
                0 <= t < terms@.len() && has_row((#[trigger] terms@[t]).postings@, row_id);
            assert(has_row(models[t].postings, row_id));
            assert(!before(row_id)) by {
                if before(row_id) {
                    let j = choose|j: int| 0 <= j < k && *(#[trigger] all[j]) == row_id;
                    assert(all[j] == all[k]);
                }
            }
            assert forall|r: u64| #[trigger] after(r) <==> before(r) || (r == row_id && matches(
                r,
            )) by {
                if after(r) && r != row_id {
                    let j = choose|j: int| 0 <= j < k + 1 && *(#[trigger] all[j]) == r;
                    assert(j < k);
                }
                if before(r) {
                    let j = choose|j: int| 0 <= j < k && *(#[trigger] all[j]) == r;
                    assert(0 <= j < k + 1);
                }
            }
            assert(matches(row_id) <==> !(require_all_terms && missing));
        }
        if require_all_terms && missing {
            proof {
                crate::ranking::lemma_top_k_skip(top@, before, after, scores, limit as nat);
            }
        } else {
            let ghost docs = top@;
            let doc = RankedDoc::new(row_id, score);
            file_doc(&mut top, doc);
            if top.len() > limit {
                top.pop();
            }
            proof {
                lemma_top_k_add(docs, before, after, scores, limit as nat, row_id);
                assert(top@ =~= kept(docs, doc, limit as nat));
            }
        }
    }
    proof {
        let before = visited(matches, all, all.len() as int);
        assert forall|r: u64| #[trigger] matches(r) implies before(r) by {
            let t = choose|t: int|
                0 <= t < models.len() && has_row((#[trigger] models[t]).postings, r);
            assert(has_row(terms@[t].postings@, r));
            assert(rows@.contains(r));
            assert(all.unref().to_set().contains(r));
            let j = choose|j: int| 0 <= j < all.unref().len() && all.unref()[j] == r;
            assert(*all[j] == r);
        }
        crate::ranking::lemma_top_k_skip(top@, before, matches, scores, limit as nat);
        if limit == usize::MAX {
            assert forall|r: u64| #[trigger] matches(r) implies rows@.contains(r) by {
                let t = choose|t: int|
                    0 <= t < models.len() && has_row((#[trigger] models[t]).postings, r);
                assert(has_row(terms@[t].postings@, r));
            }
            assert(rows.len() == rows@.len());
            lemma_holds_all(top@, matches, scores, limit as nat, rows@);
        }
    }
    top
}

/// The matches among the first `n` rows visited.
spec fn visited(matches: spec_fn(u64) -> bool, rows: Seq<&u64>, n: int) -> spec_fn(u64) -> bool {
    |row: u64| matches(row) && exists|j: int| 0 <= j < n && *(#[trigger] rows[j]) == row
}

/// The partitions that some references stand for.
spec fn referred(partitions: Seq<(Binary32, &LoadedPartition)>) -> Seq<(Binary32, LoadedPartition)> {
    Seq::new(partitions.len(), |i: int| (partitions[i].0, *partitions[i].1))
}

/// Every partition with the weight of its column, column by column and index by index.
#[verifier::rlimit(60)]
fn list_partitions<'a>(columns: &'a Vec<CombinedFieldColumn>) -> (r: Vec<
    (Binary32, &'a LoadedPartition),
>)
    ensures
        referred(r@) == all_partitions(columns@),
{
    let mut r: Vec<(Binary32, &'a LoadedPartition)> = Vec::new();
    let mut c: usize = 0;
    proof {
        assert(referred(r@) =~= all_partitions(columns@.take(0)));
    }
    while c < columns.len()
        invariant
            c <= columns.len(),
            referred(r@) == all_partitions(columns@.take(c as int)),
        decreases columns.len() - c,
    {
        let column = &columns[c];
        let ghost before = all_partitions(columns@.take(c as int));
        let mut i: usize = 0;
        proof {
            assert(referred(r@) =~= before + index_partitions(
                column.indices@.take(0),
                column.weight,
            ));
        }
        while i < column.indices.len()
            invariant
                i <= column.indices.len(),
                referred(r@) == before + index_partitions(
                    column.indices@.take(i as int),
                    column.weight,
                ),
            decreases column.indices.len() - i,
        {
            let index = &column.indices[i];
            let ghost start = referred(r@);
            let ghost own = Seq::new(
                index.partitions@.len(),
                |k: int| (column.weight, index.partitions@[k]),
            );
            let mut p: usize = 0;
            proof {
                assert(referred(r@) =~= start + own.take(0));
            }
            while p < index.partitions.len()
                invariant
                    p <= index.partitions.len(),
                    own == Seq::new(
                        index.partitions@.len(),
                        |k: int| (column.weight, index.partitions@[k]),
                    ),
                    referred(r@) == start + own.take(p as int),
                decreases index.partitions.len() - p,
            {
                let ghost r0 = r@;
                r.push((column.weight, &index.partitions[p]));
                proof {
                    assert(referred(r@) =~= referred(r0).push(own[p as int]));
                    assert(own.take(p + 1) =~= own.take(p as int).push(own[p as int]));
                    assert(referred(r@) =~= start + own.take(p + 1));
                }
                p = p + 1;
            }
            proof {
                let more = column.indices@.take(i + 1);
                assert(own.take(own.len() as int) == own);
                assert(more.drop_last() == column.indices@.take(i as int));
                assert(more.last() == column.indices@[i as int]);
                assert(referred(r@) =~= before + index_partitions(more, column.weight));
            }
            i = i + 1;
        }
        proof {
            let more = columns@.take(c + 1);
            assert(column.indices@.take(column.indices@.len() as int) == column.indices@);
            assert(more.drop_last() == columns@.take(c as int));
            assert(more.last() == columns@[c as int]);
        }
        c = c + 1;
    }
    proof {
        assert(columns@.take(columns@.len() as int) == columns@);
    }
    r
}

/// The posting lists of a term, partition by partition.
fn list_sources<'a>(
    partitions: &Vec<(Binary32, &'a LoadedPartition)>,
    term: &String,
) -> (sources: Vec<LoadedSource<'a>>)
    ensures
        sources@ == sources_of(referred(partitions@), term@),
{
    let mut sources: Vec<LoadedSource<'a>> = Vec::new();
    let ghost all = referred(partitions@);
    let mut i: usize = 0;
    while i < partitions.len()
        invariant
            i <= partitions.len(),
            all == referred(partitions@),
            sources@ == sources_of(all.take(i as int), term@),
        decreases partitions.len() - i,
    {
        let (weight, partition) = partitions[i];
        proof {
            assert(all.take(i + 1).drop_last() == all.take(i as int));
            assert(all.take(i + 1).last() == (weight, *partition));
        }
        if let Some(posting) = partition.posting(term) {
            sources.push(
                LoadedSource {
                    weight,
                    docs: &partition.docs,
                    is_legacy: partition.is_legacy,
                    posting,
                },
            );
        }
        i = i + 1;
    }
    proof {
        assert(all.take(all.len() as int) == all);
    }
    sources
}

/// What each partition adds to the length of the document at `row`.
pub open spec fn length_parts(partitions: Seq<(Binary32, LoadedPartition)>, row: u64) -> Seq<
    Binary32,
> {
    Seq::new(
        partitions.len(),
        |i: int|
            partitions[i].0.times(Binary32::of_count(partitions[i].1.docs.length_at(row))),
    )
}

/// The blended length of the document at each row.
pub open spec fn blended_lengths(partitions: Seq<(Binary32, LoadedPartition)>) -> spec_fn(
    u64,
) -> Binary32 {
    |row: u64| total(length_parts(partitions, row))
}

/// The lengths that some partitions give, each with the weight of its column.
pub struct PartitionLengths<'a> {
    partitions: Vec<(Binary32, &'a LoadedPartition)>,
}

impl<'a> PartitionLengths<'a> {
    closed spec fn partitions(&self) -> Seq<(Binary32, LoadedPartition)> {
        referred(self.partitions@)
    }

    /// The lengths that all partitions of some columns give together.
    pub fn new(columns: &'a Vec<CombinedFieldColumn>) -> (r: Self)
        ensures
            lengths_of(&r) == blended_lengths(all_partitions(columns@)),
    {
        let r = PartitionLengths { partitions: list_partitions(columns) };
        proof {
            assert(lengths_of(&r) =~= blended_lengths(all_partitions(columns@)));
        }
        r
    }
}

impl<'a> DocumentLengths for PartitionLengths<'a> {
    closed spec fn length_spec(&self, row: u64) -> Binary32 {
        blended_lengths(self.partitions())(row)
    }

    fn dl_prime(&self, row: u64) -> Binary32 {
        let ghost parts = length_parts(self.partitions(), row);
        let mut dl = Binary32::zero();
        let mut i: usize = 0;
        while i < self.partitions.len()
            invariant
                i <= self.partitions.len(),
                parts == length_parts(self.partitions(), row),
                dl == total(parts.take(i as int)),
            decreases self.partitions.len() - i,
        {
            let (weight, partition) = self.partitions[i];
            proof {
                assert(parts.take(i + 1).drop_last() == parts.take(i as int));
                assert(parts.take(i + 1).last() == parts[i as int]);
            }
            dl = dl.add(weight.mul(Binary32::from_count(partition.docs.doc_length_at(row))));
            i = i + 1;
        }
        proof {
            assert(parts.take(parts.len() as int) == parts);
        }
        dl
    }
}

/// The terms of a query over some columns, the rows outside `selected` left out.
pub open spec fn query_terms(
    columns: Seq<CombinedFieldColumn>,
    tokens: Seq<String>,
    selected: Set<u64>,
    weights: Seq<(String, Binary32)>,
) -> Seq<TermModel> {
    let terms = distinct(tokens);
    Seq::new(
        terms.len(),
        |t: int|
            term_of(
                listed_weight(weights, terms[t]),
                sources_of(all_partitions(columns), terms[t]),
                selected,
            ),
    )
}

/// The documents that two lists give the rows and the scores of.
pub open spec fn zipped(rows: Seq<u64>, scores: Seq<Binary32>) -> Seq<RankedDoc> {
    Seq::new(rows.len(), |i: int| RankedDoc { row_id: rows[i], score: scores[i] })
}

/// Exact cross-field search over the target columns.
///
/// Merges each query term's postings across every column and partition, scores
/// the union of those postings and keeps the best `limit`, all if there is no
/// limit. `And` keeps only documents that hold every term in some column. The
/// column weights are folded into the frequencies and the lengths.
///
/// Returns the row ids and the scores, best first, equal scores by row id.
#[verifier::rlimit(60)]
pub fn combined_fields_search(
    columns: &Vec<CombinedFieldColumn>,
    tokens: &Vec<String>,
    limit: Option<usize>,
    operator: Operator,
    scorer: &CombinedFieldsBM25Scorer,
    mask: &RowAddrMask,
) -> (r: (Vec<u64>, Vec<Binary32>))
    ensures
        r.0@.len() == r.1@.len(),
        ({
            let terms = query_terms(
                columns@,
                tokens@,
                selected_rows(*mask),
                scorer.query_weights@,
            );
            is_top_k(
                zipped(r.0@, r.1@),
                matching(terms, operator == Operator::And),
                scoring(
                    terms,
                    scorer.avg_doc_length,
                    blended_lengths(all_partitions(columns@)),
                ),
                match limit {
                    Some(n) => n as nat,
                    None => usize::MAX as nat,
                },
            )
        }),
        limit matches Some(n) ==> r.0@.len() <= n,
        forall|i: int|
            0 <= i < r.0@.len() ==> selected_rows(*mask).contains(#[trigger] r.0@[i]),
        forall|i: int, j: int|
            0 <= i < j < r.0@.len() ==> !(#[trigger] r.1@[i]).before(#[trigger] r.1@[j]) && (
            r.1@[i] == r.1@[j] ==> r.0@[i] < r.0@[j]),
        limit is None ==> holds_all(
            zipped(r.0@, r.1@),
            matching(
                query_terms(columns@, tokens@, selected_rows(*mask), scorer.query_weights@),
                operator == Operator::And,
            ),
        ),
{
    let ghost models = query_terms(columns@, tokens@, selected_rows(*mask), scorer.query_weights@);
    let terms = unique_terms(tokens);
    let limit = match limit {
        Some(n) => n,
        None => usize::MAX,
    };
    let mut row_ids: Vec<u64> = Vec::new();
    let mut scores: Vec<Binary32> = Vec::new();
    if terms.len() == 0 || limit == 0 {
        proof {
            assert(texts(terms@).len() == terms@.len());
            assert(zipped(row_ids@, scores@).len() == 0);
        }
        return (row_ids, scores);
    }
    let require_all_terms = operator == Operator::And;
    let partitions = list_partitions(columns);
    let mut postings: Vec<CombinedTermPostings> = Vec::new();
    let mut t: usize = 0;
    while t < terms.len()
        invariant
            t <= terms.len(),
            texts(terms@) == distinct(tokens@),
            referred(partitions@) == all_partitions(columns@),
            models == query_terms(
                columns@,
                tokens@,
                selected_rows(*mask),
                scorer.query_weights@,
            ),
            postings@.len() == t,
            forall|k: int| 0 <= k < t ==> (#[trigger] postings@[k]).model() == models[k],
            forall|k: int| 0 <= k < t ==> ascending((#[trigger] postings@[k]).postings@),
        decreases terms.len() - t,
    {
        let term = &terms[t];
        let sources = list_sources(&partitions, term);
        let built = build_materialized_term(term.as_str(), &sources, mask, scorer);
        proof {
            assert(texts(terms@)[t as int] == term@);
        }
        postings.push(built.postings);
        t = t + 1;
    }
    proof {
        assert(texts(terms@).len() == terms@.len());
        assert(posting_models(postings@) =~= models);
    }
    let lengths = PartitionLengths { partitions };
    let top = score_all_candidates(&postings, &lengths, limit, require_all_terms, scorer);
    proof {
        assert(lengths_of(&lengths) =~= blended_lengths(all_partitions(columns@)));
    }
    let mut i: usize = 0;
    while i < top.len()
        invariant
            i <= top.len(),
            row_ids@.len() == i,
            scores@.len() == i,
            forall|k: int| 0 <= k < i ==> #[trigger] row_ids@[k] == top@[k].row_id,
            forall|k: int| 0 <= k < i ==> #[trigger] scores@[k] == top@[k].score,
        decreases top.len() - i,
    {
        row_ids.push(top[i].row_id);
        scores.push(top[i].score);
        i = i + 1;
    }
    proof {
        assert(zipped(row_ids@, scores@) =~= top@);
        law_top_k_means(
            top@,
            matching(models, require_all_terms),
            scoring(models, scorer.avg_doc_length, blended_lengths(all_partitions(columns@))),
            limit as nat,
        );
        assert forall|i: int| 0 <= i < row_ids@.len() implies selected_rows(*mask).contains(
            #[trigger] row_ids@[i],
        ) by {
            assert(matching(models, require_all_terms)(top@[i].row_id));
            law_matches_are_live_and_selected(
                columns@,
                tokens@,
                selected_rows(*mask),
                scorer.query_weights@,
                require_all_terms,
                row_ids@[i],
            );
        }
        assert forall|i: int, j: int| 0 <= i < j < row_ids@.len() implies !(
        #[trigger] scores@[i]).before(#[trigger] scores@[j]) && (scores@[i] == scores@[j]
            ==> row_ids@[i] < row_ids@[j]) by {
            assert(!top@[i].score.before(top@[j].score));
        }
    }
    (row_ids, scores)
}

/// A query's terms come in the order in which its tokens first occur.
pub proof fn law_terms_come_in_order(tokens: Seq<String>, i: int, j: int) -> (first: int)
    requires
        0 <= i < j < distinct(tokens).len(),
    ensures
        0 <= first < tokens.len(),
        tokens[first]@ == distinct(tokens)[i],
        forall|g: int| 0 <= g <= first ==> (#[trigger] tokens[g])@ != distinct(tokens)[j],
    decreases tokens.len(),
{
    let init = tokens.drop_last();
    let before = distinct(init);
    let n = tokens.len() - 1;
    law_terms_are_distinct_tokens(init);
    law_terms_are_distinct_tokens(tokens);
    if j < before.len() {
        let first = law_terms_come_in_order(init, i, j);
        assert forall|g: int| 0 <= g <= first implies (#[trigger] tokens[g])@
            != distinct(tokens)[j] by {
            assert(init[g] == tokens[g]);
        }
        assert(init[first] == tokens[first]);
        first
    } else {
        // The later term is the last token, which did not occur before.
        assert(before.contains(before[i]));
        assert(texts(init).contains(before[i]));
        let first = choose|g: int| 0 <= g < init.len() && texts(init)[g] == before[i];
        assert(init[first] == tokens[first]);
        assert forall|g: int| 0 <= g <= first implies (#[trigger] tokens[g])@
            != distinct(tokens)[j] by {
            assert(texts(init)[g] == tokens[g]@);
            assert(texts(init).contains(tokens[g]@));
            assert(before.contains(tokens[g]@));
        }
        first
    }
}

/// A search for all terms finds every row at which each of them has a positive
/// frequency.
pub proof fn law_all_terms_match(terms: Seq<TermModel>, row: u64, at: Seq<int>)
    requires
        terms.len() > 0,
        at.len() == terms.len(),
        forall|t: int|
            0 <= t < terms.len() ==> {
                let postings = (#[trigger] terms[t]).postings;
                &&& ascending(postings)
                &&& 0 <= at[t] < postings.len()
                &&& postings[at[t]].0 == row
                &&& Binary32::zero_spec().before(postings[at[t]].1)
            },
    ensures
        matching(terms, true)(row),
        matching(terms, false)(row),
{
    assert forall|t: int| 0 <= t < terms.len() implies has_row(
        (#[trigger] terms[t]).postings,
        row,
    ) && !tf_at(terms[t].postings, row).at_most(Binary32::zero_spec()) by {
        crate::cursor::lemma_tf_at(terms[t].postings, at[t]);
    }
    assert(has_row(terms[0].postings, row));
}

/// Merged postings are searched as they stand.
pub proof fn law_postings_stand_for_themselves(terms: Seq<CombinedTermPostings>, t: int)
    requires
        0 <= t < terms.len(),
    ensures
        posting_models(terms).len() == terms.len(),
        posting_models(terms)[t].idf == terms[t].idf,
        posting_models(terms)[t].ceiling == terms[t].upper_bound,
        posting_models(terms)[t].postings == terms[t].postings@,
{
}

/// A query's terms have the weights that are listed for them, and their ceilings.
pub proof fn law_query_terms_have_their_weights(
    columns: Seq<CombinedFieldColumn>,
    tokens: Seq<String>,
    selected: Set<u64>,
    weights: Seq<(String, Binary32)>,
    t: int,
)
    requires
        0 <= t < distinct(tokens).len(),
    ensures
        ({
            let term = query_terms(columns, tokens, selected, weights)[t];
            let idf = listed_weight(weights, distinct(tokens)[t]);
            &&& query_terms(columns, tokens, selected, weights).len() == distinct(tokens).len()
            &&& term.idf == idf
            &&& Binary32::zero_spec().before(idf) ==> term.ceiling == idf.times(
                Binary32 { bits: 0x400c_ccd1 },
            )
            &&& !Binary32::zero_spec().before(idf) ==> term.ceiling.bits == 0
        }),
{
}

/// Rows and scores are paired as they come.
pub proof fn law_rows_and_scores_pair_up(rows: Seq<u64>, scores: Seq<Binary32>, i: int)
    requires
        rows.len() == scores.len(),
        0 <= i < rows.len(),
    ensures
        zipped(rows, scores).len() == rows.len(),
        zipped(rows, scores)[i].row_id == rows[i],
        zipped(rows, scores)[i].score == scores[i],
{
}

} // verus!
