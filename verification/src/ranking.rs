//! Scored documents, their order, and the best of them.
use crate::binary::Binary32;
use vstd::prelude::*;

verus! {

/// A document with its score.
#[derive(Clone, Copy, Debug, PartialEq, Eq, Structural)]
pub struct RankedDoc {
    pub row_id: u64,
    pub score: Binary32,
}

/// The place of a score in the total order of bit patterns: numbers by value,
/// negative zero before positive zero, and what is not a number at the ends.
pub open spec fn total_key(score: Binary32) -> int {
    if score.number().negative {
        -(score.number().code as int) - 1
    } else {
        score.number().code as int
    }
}

impl RankedDoc {
    /// Whether this document ranks before the other: by descending score, then
    /// by ascending row id.
    pub open spec fn better(self, other: RankedDoc) -> bool {
        total_key(self.score) > total_key(other.score) || (total_key(self.score) == total_key(
            other.score,
        ) && self.row_id < other.row_id)
    }

    /// The document at `row_id` with its score.
    pub fn new(row_id: u64, score: Binary32) -> (r: RankedDoc)
        ensures
            r.row_id == row_id,
            r.score == score,
    {
        RankedDoc { row_id, score }
    }

    /// Whether this document ranks before the other.
    pub fn ranks_before(&self, other: &RankedDoc) -> (yes: bool)
        ensures
            yes == self.better(*other),
    {
        let a = place_of(self.score);
        let b = place_of(other.score);
        a > b || (a == b && self.row_id < other.row_id)
    }
}

fn place_of(score: Binary32) -> (key: i64)
    ensures
        key == total_key(score),
{
    let code = (score.bits % 0x8000_0000) as i64;
    if score.bits >= 0x8000_0000 {
        -code - 1
    } else {
        code
    }
}

/// Best first, none twice.
pub open spec fn ranked(docs: Seq<RankedDoc>) -> bool {
    forall|i: int, j: int| 0 <= i < j < docs.len() ==> (#[trigger] docs[i]).better(#[trigger] docs[j])
}

/// Whether some of the documents is at `row`.
pub open spec fn holds_row(docs: Seq<RankedDoc>, row: u64) -> bool {
    exists|i: int| 0 <= i < docs.len() && (#[trigger] docs[i]).row_id == row
}

/// Whether `limit` documents all rank before `doc`.
pub open spec fn beaten(docs: Seq<RankedDoc>, limit: nat, doc: RankedDoc) -> bool {
    docs.len() == limit && forall|i: int|
        0 <= i < docs.len() ==> (#[trigger] docs[i]).better(doc)
}

/// The best `limit` of some matches, best first: every match is among them, or
/// loses to all of them.
pub open spec fn is_top_k(
    docs: Seq<RankedDoc>,
    matches: spec_fn(u64) -> bool,
    score: spec_fn(u64) -> Binary32,
    limit: nat,
) -> bool {
    &&& ranked(docs)
    &&& docs.len() <= limit
    &&& forall|i: int|
        0 <= i < docs.len() ==> matches((#[trigger] docs[i]).row_id) && docs[i].score == score(
            docs[i].row_id,
        )
    &&& forall|row: u64| #[trigger]
        matches(row) ==> holds_row(docs, row) || beaten(
            docs,
            limit,
            RankedDoc { row_id: row, score: score(row) },
        )
}

/// How many of the documents stay before `doc` when it is filed among them.
pub open spec fn place_in(docs: Seq<RankedDoc>, doc: RankedDoc) -> int
    decreases docs.len(),
{
    if docs.len() == 0 {
        0
    } else if docs.last().better(doc) {
        docs.len() as int
    } else {
        place_in(docs.drop_last(), doc)
    }
}

/// The documents with `doc` filed among them.
pub open spec fn filed(docs: Seq<RankedDoc>, doc: RankedDoc) -> Seq<RankedDoc> {
    docs.insert(place_in(docs, doc), doc)
}

/// Files `doc` among documents that are ordered best first.
pub fn file_doc(docs: &mut Vec<RankedDoc>, doc: RankedDoc)
    ensures
        final(docs)@ == filed(old(docs)@, doc),
        exists|p: int|
            0 <= p <= old(docs)@.len() && #[trigger] old(docs)@.insert(p, doc) == final(docs)@ && (p
                > 0 ==> old(docs)@[p - 1].better(doc)) && forall|i: int|
                p <= i < old(docs)@.len() ==> !(#[trigger] old(docs)@[i]).better(doc),
{
    let mut place: usize = docs.len();
    proof {
        assert(docs@.take(place as int) == docs@);
        lemma_place_range(docs@, doc);
    }
    while place > 0 && !docs[place - 1].ranks_before(&doc)
        invariant
            place <= docs.len(),
            docs@ == old(docs)@,
            place_in(docs@.take(place as int), doc) == place_in(docs@, doc),
        decreases place,
    {
        proof {
            assert(docs@.take(place as int).last() == docs@[place - 1]);
            assert(docs@.take(place as int).drop_last() == docs@.take(place - 1));
        }
        place = place - 1;
    }
    proof {
        if place > 0 {
            assert(docs@.take(place as int).last() == docs@[place - 1]);
        }
    }
    docs.insert(place, doc);
    proof {
        lemma_place_range(old(docs)@, doc);
        assert(old(docs)@.insert(place_in(old(docs)@, doc), doc) == docs@);
    }
}

/// Where a document is filed.
pub proof fn lemma_place_range(docs: Seq<RankedDoc>, doc: RankedDoc)
    ensures
        0 <= place_in(docs, doc) <= docs.len(),
        place_in(docs, doc) > 0 ==> docs[place_in(docs, doc) - 1].better(doc),
        forall|i: int| place_in(docs, doc) <= i < docs.len() ==> !(#[trigger] docs[i]).better(doc),
    decreases docs.len(),
{
    if docs.len() > 0 && !docs.last().better(doc) {
        let init = docs.drop_last();
        lemma_place_range(init, doc);
        assert forall|i: int| place_in(docs, doc) <= i < docs.len() implies !(
        #[trigger] docs[i]).better(doc) by {
            if i < init.len() {
                assert(docs[i] == init[i]);
            }
        }
    }
}

/// Filing keeps the order, provided that the row is new.
#[verifier::rlimit(60)]
pub proof fn lemma_filed(docs: Seq<RankedDoc>, doc: RankedDoc)
    requires
        ranked(docs),
        !holds_row(docs, doc.row_id),
    ensures
        ranked(filed(docs, doc)),
        filed(docs, doc).len() == docs.len() + 1,
        forall|i: int|
            0 <= i < filed(docs, doc).len() ==> #[trigger] filed(docs, doc)[i] == doc
                || docs.contains(filed(docs, doc)[i]),
        forall|i: int|
            0 <= i < docs.len() ==> filed(docs, doc).contains(#[trigger] docs[i]),
        filed(docs, doc).contains(doc),
        docs.len() > 0 && docs.last().better(doc) ==> filed(docs, doc).last() == doc,
        docs.len() > 0 && !docs.last().better(doc) ==> filed(docs, doc).last() == docs.last(),
{
    lemma_place_range(docs, doc);
    let p = place_in(docs, doc);
    let all = filed(docs, doc);
    assert forall|i: int, j: int| 0 <= i < j < all.len() implies (#[trigger] all[i]).better(
        #[trigger] all[j],
    ) by {
        let a = if i < p {
            i
        } else {
            i - 1
        };
        let b = if j < p {
            j
        } else {
            j - 1
        };
        if j == p {
            if i < p - 1 {
                assert(docs[i].better(docs[p - 1]));
            }
            assert(docs[p - 1].better(doc));
        } else if i == p {
            assert(!docs[b].better(doc));
            assert(docs[b].row_id != doc.row_id);
        } else {
            assert(docs[a].better(docs[b]));
        }
    }
    assert forall|i: int| 0 <= i < all.len() implies #[trigger] all[i] == doc || docs.contains(
        all[i],
    ) by {
        if i < p {
            assert(all[i] == docs[i]);
        } else if i > p {
            assert(all[i] == docs[i - 1]);
        }
    }
    assert forall|i: int| 0 <= i < docs.len() implies all.contains(#[trigger] docs[i]) by {
        if i < p {
            assert(all[i] == docs[i]);
        } else {
            assert(all[i + 1] == docs[i]);
        }
    }
    assert(all[p] == doc);
    assert(all.last() == all[docs.len() as int]);
}

/// The documents that are kept of some and one more.
pub open spec fn kept(docs: Seq<RankedDoc>, doc: RankedDoc, limit: nat) -> Seq<RankedDoc> {
    let all = filed(docs, doc);
    if all.len() > limit {
        all.drop_last()
    } else {
        all
    }
}

/// One more match: the best of all matches are the best of those before and it.
#[verifier::rlimit(60)]
pub proof fn lemma_top_k_add(
    docs: Seq<RankedDoc>,
    before: spec_fn(u64) -> bool,
    after: spec_fn(u64) -> bool,
    score: spec_fn(u64) -> Binary32,
    limit: nat,
    row: u64,
)
    requires
        is_top_k(docs, before, score, limit),
        !before(row),
        forall|r: u64| #[trigger] after(r) <==> before(r) || r == row,
    ensures
        is_top_k(kept(docs, RankedDoc { row_id: row, score: score(row) }, limit), after, score, limit),
{
    let doc = RankedDoc { row_id: row, score: score(row) };
    assert(!holds_row(docs, row));
    lemma_filed(docs, doc);
    let all = filed(docs, doc);
    let top = kept(docs, doc, limit);
    assert forall|i: int| 0 <= i < top.len() implies after((#[trigger] top[i]).row_id)
        && top[i].score == score(top[i].row_id) by {
        assert(top[i] == all[i]);
        if all[i] != doc {
            let j = choose|j: int| 0 <= j < docs.len() && docs[j] == all[i];
            assert(before(docs[j].row_id));
        }
        assert(after(row));
    }
    assert forall|i: int, j: int| 0 <= i < j < top.len() implies (#[trigger] top[i]).better(
        #[trigger] top[j],
    ) by {
        assert(all[i].better(all[j]));
    }
    assert forall|r: u64| #[trigger] after(r) implies holds_row(top, r) || beaten(
        top,
        limit,
        RankedDoc { row_id: r, score: score(r) },
    ) by {
        let d = RankedDoc { row_id: r, score: score(r) };
        if r == row || holds_row(docs, r) {
            // It is among all of them: kept, or the one that goes.
            if r != row {
                let k = choose|k: int| 0 <= k < docs.len() && (#[trigger] docs[k]).row_id == r;
                assert(all.contains(docs[k]));
                assert(docs[k] == d);
            }
            let k = choose|k: int| 0 <= k < all.len() && all[k] == d;
            if k < top.len() {
                assert(top[k].row_id == r);
            } else {
                assert forall|i: int| 0 <= i < top.len() implies (#[trigger] top[i]).better(d) by {
                    assert(all[i].better(all[k]));
                }
            }
        } else {
            assert(before(r));
            assert(beaten(docs, limit, d));
            assert(all.len() == limit + 1);
            if limit > 0 {
                assert forall|i: int| 0 <= i < top.len() implies (#[trigger] top[i]).better(d) by {
                    assert(top[i] == all[i]);
                    if all[i] == doc {
                        // Some document of before comes behind it.
                        assert(all[i].better(all[limit as int]));
                        assert(all[limit as int] == doc || docs.contains(all[limit as int]));
                        assert(all[limit as int] != doc);
                        let j = choose|j: int| 0 <= j < docs.len() && docs[j] == all[limit as int];
                        assert(docs[j].better(d));
                    } else {
                        let j = choose|j: int| 0 <= j < docs.len() && docs[j] == all[i];
                        assert(docs[j].better(d));
                    }
                }
            }
        }
    }
}

/// More matches that all lose: the best stay.
pub proof fn lemma_top_k_skip(
    docs: Seq<RankedDoc>,
    before: spec_fn(u64) -> bool,
    after: spec_fn(u64) -> bool,
    score: spec_fn(u64) -> Binary32,
    limit: nat,
)
    requires
        is_top_k(docs, before, score, limit),
        forall|r: u64| #[trigger] before(r) ==> after(r),
        forall|r: u64| #[trigger]
            after(r) ==> before(r) || beaten(docs, limit, RankedDoc { row_id: r, score: score(r) }),
    ensures
        is_top_k(docs, after, score, limit),
{
    assert forall|i: int| 0 <= i < docs.len() implies after((#[trigger] docs[i]).row_id) by {
        assert(before(docs[i].row_id));
    }
}

/// There is only one way to list the best of some matches.
pub proof fn law_top_k_is_unique(
    a: Seq<RankedDoc>,
    b: Seq<RankedDoc>,
    matches: spec_fn(u64) -> bool,
    score: spec_fn(u64) -> Binary32,
    limit: nat,
)
    requires
        is_top_k(a, matches, score, limit),
        is_top_k(b, matches, score, limit),
    ensures
        a == b,
{
    lemma_top_k_within(a, b, matches, score, limit);
    lemma_top_k_within(b, a, matches, score, limit);
    lemma_ranked_unique(a, b);
}

proof fn lemma_top_k_within(
    a: Seq<RankedDoc>,
    b: Seq<RankedDoc>,
    matches: spec_fn(u64) -> bool,
    score: spec_fn(u64) -> Binary32,
    limit: nat,
)
    requires
        is_top_k(a, matches, score, limit),
        is_top_k(b, matches, score, limit),
    ensures
        forall|i: int| 0 <= i < a.len() ==> b.contains(#[trigger] a[i]),
{
    assert forall|i: int| 0 <= i < a.len() implies b.contains(#[trigger] a[i]) by {
        assert(matches(a[i].row_id));
        if holds_row(b, a[i].row_id) {
            let j = choose|j: int| 0 <= j < b.len() && (#[trigger] b[j]).row_id == a[i].row_id;
            assert(b[j] == a[i]);
        } else {
            assert(beaten(b, limit, a[i]));
            // Then every one of `b` is in `a`, and `a` has one more.
            assert forall|j: int| 0 <= j < b.len() implies a.contains(#[trigger] b[j]) by {
                assert(matches(b[j].row_id));
                assert(b[j].better(a[i]));
                if holds_row(a, b[j].row_id) {
                    let k = choose|k: int|
                        0 <= k < a.len() && (#[trigger] a[k]).row_id == b[j].row_id;
                    assert(a[k] == b[j]);
                } else {
                    assert(beaten(a, limit, b[j]));
                    assert(a[i].better(b[j]));
                }
            }
            lemma_ranked_distinct(a);
            lemma_ranked_distinct(b);
            let (sa, sb) = (a.to_set(), b.to_set());
            a.unique_seq_to_set();
            b.unique_seq_to_set();
            assert(sb.subset_of(sa.remove(a[i]))) by {
                assert forall|d: RankedDoc| sb.contains(d) implies sa.remove(a[i]).contains(d) by {
                    let j = choose|j: int| 0 <= j < b.len() && b[j] == d;
                    assert(a.contains(b[j]));
                    assert(b[j].better(a[i]));
                }
            }
            vstd::set_lib::lemma_len_subset(sb, sa.remove(a[i]));
        }
    }
}

proof fn lemma_ranked_distinct(a: Seq<RankedDoc>)
    requires
        ranked(a),
    ensures
        a.no_duplicates(),
{
    assert forall|i: int, j: int| 0 <= i < a.len() && 0 <= j < a.len() && i != j implies a[i]
        != a[j] by {
        if i < j {
            assert(a[i].better(a[j]));
        } else {
            assert(a[j].better(a[i]));
        }
    }
}

/// Ranked documents are determined by which they are.
proof fn lemma_ranked_unique(a: Seq<RankedDoc>, b: Seq<RankedDoc>)
    requires
        ranked(a),
        ranked(b),
        forall|i: int| 0 <= i < a.len() ==> b.contains(#[trigger] a[i]),
        forall|i: int| 0 <= i < b.len() ==> a.contains(#[trigger] b[i]),
    ensures
        a == b,
    decreases a.len(),
{
    if a.len() == 0 || b.len() == 0 {
        if a.len() > 0 {
            assert(b.contains(a[0]));
        }
        if b.len() > 0 {
            assert(a.contains(b[0]));
        }
        assert(a =~= b);
    } else {
        assert(a[0] == b[0]) by {
            assert(b.contains(a[0]));
            assert(a.contains(b[0]));
            let j = choose|j: int| 0 <= j < b.len() && b[j] == a[0];
            let i = choose|i: int| 0 <= i < a.len() && a[i] == b[0];
            if j > 0 && i > 0 {
                assert(b[0].better(b[j]));
                assert(a[0].better(a[i]));
            }
        }
        let (a1, b1) = (a.drop_first(), b.drop_first());
        assert forall|i: int| 0 <= i < a1.len() implies b1.contains(#[trigger] a1[i]) by {
            assert(b.contains(a[i + 1]));
            let j = choose|j: int| 0 <= j < b.len() && b[j] == a[i + 1];
            assert(a[0].better(a[i + 1]));
            assert(j > 0);
            assert(b1[j - 1] == a1[i]);
        }
        assert forall|i: int| 0 <= i < b1.len() implies a1.contains(#[trigger] b1[i]) by {
            assert(a.contains(b[i + 1]));
            let j = choose|j: int| 0 <= j < a.len() && a[j] == b[i + 1];
            assert(b[0].better(b[i + 1]));
            assert(j > 0);
            assert(a1[j - 1] == b1[i]);
        }
        assert(ranked(a1)) by {
            assert forall|i: int, j: int| 0 <= i < j < a1.len() implies (#[trigger] a1[i]).better(
                #[trigger] a1[j],
            ) by {
                assert(a[i + 1].better(a[j + 1]));
            }
        }
        assert(ranked(b1)) by {
            assert forall|i: int, j: int| 0 <= i < j < b1.len() implies (#[trigger] b1[i]).better(
                #[trigger] b1[j],
            ) by {
                assert(b[i + 1].better(b[j + 1]));
            }
        }
        lemma_ranked_unique(a1, b1);
        assert(a =~= seq![a[0]] + a1);
        assert(b =~= seq![b[0]] + b1);
    }
}

/// The best few are the first of the best many.
pub proof fn law_top_k_is_a_prefix(
    docs: Seq<RankedDoc>,
    matches: spec_fn(u64) -> bool,
    score: spec_fn(u64) -> Binary32,
    limit: nat,
    fewer: nat,
)
    requires
        is_top_k(docs, matches, score, limit),
        fewer <= limit,
    ensures
        is_top_k(
            docs.take(if docs.len() < fewer { docs.len() as int } else { fewer as int }),
            matches,
            score,
            fewer,
        ),
{
    let top = docs.take(if docs.len() < fewer { docs.len() as int } else { fewer as int });
    assert(ranked(top)) by {
        assert forall|i: int, j: int| 0 <= i < j < top.len() implies (#[trigger] top[i]).better(
            #[trigger] top[j],
        ) by {
            assert(docs[i].better(docs[j]));
        }
    }
    assert forall|i: int| 0 <= i < top.len() implies matches((#[trigger] top[i]).row_id)
        && top[i].score == score(top[i].row_id) by {
        assert(top[i] == docs[i]);
    }
    assert forall|row: u64| #[trigger] matches(row) implies holds_row(top, row) || beaten(
        top,
        fewer,
        RankedDoc { row_id: row, score: score(row) },
    ) by {
        let d = RankedDoc { row_id: row, score: score(row) };
        if holds_row(docs, row) {
            let k = choose|k: int| 0 <= k < docs.len() && (#[trigger] docs[k]).row_id == row;
            if k < top.len() {
                assert(top[k].row_id == row);
            } else {
                assert forall|i: int| 0 <= i < top.len() implies (#[trigger] top[i]).better(d) by {
                    assert(docs[i].better(docs[k]));
                }
            }
        } else {
            assert forall|i: int| 0 <= i < top.len() implies (#[trigger] top[i]).better(d) by {
                assert(docs[i].better(d));
            }
        }
    }
}

/// Whether every match is among the documents, so that none was cut off.
pub open spec fn holds_all(docs: Seq<RankedDoc>, matches: spec_fn(u64) -> bool) -> bool {
    forall|row: u64| #[trigger] matches(row) ==> holds_row(docs, row)
}

/// A limit that is no less than the number of rows cuts nothing off.
pub proof fn lemma_holds_all(
    docs: Seq<RankedDoc>,
    matches: spec_fn(u64) -> bool,
    score: spec_fn(u64) -> Binary32,
    limit: nat,
    rows: Set<u64>,
)
    requires
        is_top_k(docs, matches, score, limit),
        rows.finite(),
        rows.len() <= limit,
        forall|row: u64| #[trigger] matches(row) ==> rows.contains(row),
    ensures
        holds_all(docs, matches),
{
    assert forall|row: u64| #[trigger] matches(row) implies holds_row(docs, row) by {
        if !holds_row(docs, row) {
            let kept_rows = Seq::new(docs.len(), |i: int| docs[i].row_id);
            assert forall|i: int, j: int| 0 <= i < j < docs.len() implies kept_rows[i]
                != kept_rows[j] by {
                assert(docs[i].better(docs[j]));
                assert(docs[i].score == score(docs[i].row_id));
                assert(docs[j].score == score(docs[j].row_id));
            }
            assert(kept_rows.no_duplicates());
            kept_rows.unique_seq_to_set();
            assert forall|r: u64| kept_rows.to_set().contains(r) implies rows.remove(row).contains(
                r,
            ) by {
                let i = choose|i: int| 0 <= i < kept_rows.len() && kept_rows[i] == r;
                assert(matches(docs[i].row_id));
                assert(docs[i].row_id == r);
            }
            vstd::set_lib::lemma_len_subset(kept_rows.to_set(), rows.remove(row));
        }
    }
}

/// Where no match is cut off, the best of some of the matches, with the same
/// scores, are those that match, and no others.
pub proof fn lemma_found_among(
    found: Seq<RankedDoc>,
    matches: spec_fn(u64) -> bool,
    score: spec_fn(u64) -> Binary32,
    fewer: Seq<RankedDoc>,
    fewer_match: spec_fn(u64) -> bool,
    fewer_score: spec_fn(u64) -> Binary32,
    limit: nat,
)
    requires
        is_top_k(found, matches, score, limit),
        holds_all(found, matches),
        is_top_k(fewer, fewer_match, fewer_score, limit),
        forall|row: u64| #[trigger]
            fewer_match(row) ==> matches(row) && fewer_score(row) == score(row),
    ensures
        forall|doc: RankedDoc| #[trigger]
            fewer.contains(doc) <==> found.contains(doc) && fewer_match(doc.row_id),
{
    assert forall|doc: RankedDoc| #[trigger] fewer.contains(doc) implies found.contains(doc)
        && fewer_match(doc.row_id) by {
        let i = choose|i: int| 0 <= i < fewer.len() && fewer[i] == doc;
        assert(fewer_match(fewer[i].row_id));
        assert(matches(doc.row_id));
        assert(holds_row(found, doc.row_id));
        let k = choose|k: int| 0 <= k < found.len() && (#[trigger] found[k]).row_id == doc.row_id;
        assert(found[k] == doc);
    }
    lemma_ranked_distinct(fewer);
    lemma_ranked_distinct(found);
    fewer.unique_seq_to_set();
    found.unique_seq_to_set();
    assert forall|doc: RankedDoc| found.contains(doc) && fewer_match(
        doc.row_id,
    ) implies #[trigger] fewer.contains(doc) by {
        let k = choose|k: int| 0 <= k < found.len() && found[k] == doc;
        assert(found[k].score == score(doc.row_id));
        if !holds_row(fewer, doc.row_id) {
            assert(beaten(fewer, limit, doc));
            assert forall|d: RankedDoc| fewer.to_set().contains(d) implies found.to_set().remove(
                doc,
            ).contains(d) by {
                let i = choose|i: int| 0 <= i < fewer.len() && fewer[i] == d;
                assert(fewer.contains(d));
                assert(fewer[i].row_id != doc.row_id);
            }
            assert(found.to_set().contains(doc));
            vstd::set_lib::lemma_len_subset(fewer.to_set(), found.to_set().remove(doc));
        }
        let i = choose|i: int| 0 <= i < fewer.len() && (#[trigger] fewer[i]).row_id == doc.row_id;
        assert(fewer[i] == doc);
    }
}

/// Documents rank by score, the higher first, and by row where the scores are
/// the same; negative zero ranks behind zero, and what is not a number at the end
/// that its sign says. Of two different ones exactly one ranks before the other, and what
/// ranks before one that ranks before a third ranks before that.
pub proof fn law_ranking(a: RankedDoc, b: RankedDoc, c: RankedDoc)
    ensures
        b.score.before(a.score) ==> a.better(b),
        a.score == b.score ==> (a.better(b) <==> a.row_id < b.row_id),
        a.score.bits < 0x8000_0000 <= b.score.bits ==> a.better(b),
        b.score.bits < a.score.bits < 0x8000_0000 ==> a.better(b),
        0x8000_0000 <= a.score.bits < b.score.bits ==> a.better(b),
        a != b ==> (a.better(b) <==> !b.better(a)),
        !a.better(a),
        a.better(b) && b.better(c) ==> a.better(c),
{
}

/// What the best of some matches are: matches, each once and with its score, no
/// lower score before a higher one, the lower row first where scores are the same,
/// no more than the limit, and nothing left out that scores higher than one of
/// them, or at all where there is room.
pub proof fn law_top_k_means(
    docs: Seq<RankedDoc>,
    matches: spec_fn(u64) -> bool,
    score: spec_fn(u64) -> Binary32,
    limit: nat,
)
    requires
        is_top_k(docs, matches, score, limit),
    ensures
        docs.len() <= limit,
        forall|i: int|
            0 <= i < docs.len() ==> matches((#[trigger] docs[i]).row_id) && docs[i].score == score(
                docs[i].row_id,
            ),
        forall|i: int, j: int|
            0 <= i < j < docs.len() ==> !(#[trigger] docs[i]).score.before(
                (#[trigger] docs[j]).score,
            ) && docs[i].row_id != docs[j].row_id && (docs[i].score == docs[j].score
                ==> docs[i].row_id < docs[j].row_id),
        forall|row: u64, i: int| #[trigger]
            matches(row) && 0 <= i < docs.len() && (#[trigger] docs[i]).score.before(score(row))
                ==> exists|k: int| 0 <= k < docs.len() && (#[trigger] docs[k]).row_id == row,
        docs.len() < limit ==> forall|row: u64| #[trigger]
            matches(row) ==> exists|k: int|
                0 <= k < docs.len() && (#[trigger] docs[k]).row_id == row,
{
    assert forall|i: int, j: int| 0 <= i < j < docs.len() implies !(
    #[trigger] docs[i]).score.before((#[trigger] docs[j]).score) && docs[i].row_id
        != docs[j].row_id && (docs[i].score == docs[j].score ==> docs[i].row_id
        < docs[j].row_id) by {
        assert(docs[i].better(docs[j]));
    }
    assert forall|row: u64, i: int| #[trigger]
        matches(row) && 0 <= i < docs.len() && (#[trigger] docs[i]).score.before(
            score(row),
        ) implies exists|k: int| 0 <= k < docs.len() && (#[trigger] docs[k]).row_id == row by {
        let d = RankedDoc { row_id: row, score: score(row) };
        if beaten(docs, limit, d) {
            assert(docs[i].better(d));
        }
        assert(holds_row(docs, row));
    }
}

} // verus!
