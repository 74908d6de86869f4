//! What a search means, said of its inputs: which posting entries make up a
//! frequency, which partitions make up a length, and what a score is the sum of.
use crate::binary::lemma_times_finite;
use crate::binary::lemma_zero_plus;
use crate::binary::Binary32;
use crate::bounds::total;
use crate::cursor::ascending;
use crate::cursor::blended_tf;
use crate::cursor::contributions;
use crate::cursor::has_row;
use crate::cursor::lemma_merged;
use crate::cursor::lemma_tf_at;
use crate::cursor::merged;
use crate::cursor::term_of;
use crate::cursor::tf_at;
use crate::cursor::weighted_rows;
use crate::cursor::LoadedSource;
use crate::cursor::TermModel;
use crate::documents::live_rows;
use crate::documents::AddressKeyedDocuments;
use crate::documents::PostingList;
use crate::ranking::is_top_k;
use crate::ranking::RankedDoc;
use crate::scorer::bm25_weight;
use crate::scorer::law_doc_weight_range;
use crate::scorer::listed_weight;
use crate::search::all_partitions;
use crate::search::blended_lengths;
use crate::search::distinct;
use crate::search::index_partitions;
use crate::search::is_match;
use crate::search::length_parts;
use crate::search::matching;
use crate::search::posting_of;
use crate::search::query_terms;
use crate::search::scoring;
use crate::search::sources_of;
use crate::search::CombinedFieldColumn;
use crate::search::LoadedPartition;
use vstd::prelude::*;

verus! {

/// How many entries a posting list has.
pub open spec fn entries(list: PostingList) -> int {
    match list {
        PostingList::Plain(v) => v@.len() as int,
        PostingList::Compressed(v) => v@.len() as int,
    }
}

/// How often the term occurs in the document of an entry.
pub open spec fn frequency_at(list: PostingList, k: int) -> u32 {
    match list {
        PostingList::Plain(v) => v@[k].1,
        PostingList::Compressed(v) => v@[k].1,
    }
}

/// What an entry of a posting list is keyed by.
pub open spec fn key_at(list: PostingList, k: int) -> int {
    match list {
        PostingList::Plain(v) => v@[k].0 as int,
        PostingList::Compressed(v) => v@[k].0 as int,
    }
}

/// Whether an entry stands for the document at `row`: in a legacy partition its
/// key is the row, in any other the key is the number of a document whose address
/// is the row. The highest address marks deleted documents and is no row.
pub open spec fn stands_for(
    list: PostingList,
    docs: AddressKeyedDocuments,
    is_legacy: bool,
    k: int,
    row: u64,
) -> bool {
    &&& 0 <= k < entries(list)
    &&& row < u64::MAX
    &&& if is_legacy {
        row == key_at(list, k)
    } else {
        key_at(list, k) < docs.addresses().len() && docs.addresses()[key_at(list, k)] == row
    }
}

/// The live rows of a posting list are those that its entries stand for, in the
/// order of the entries and with their frequencies: nothing is left out but
/// deleted documents, and no address is changed.
pub proof fn law_live_rows(
    list: PostingList,
    docs: AddressKeyedDocuments,
    is_legacy: bool,
) -> (at: Seq<int>)
    ensures
        ({
            let rows = live_rows(&list, &docs, is_legacy, entries(list) as nat);
            &&& rows.len() == at.len()
            &&& forall|j: int|
                0 <= j < at.len() ==> stands_for(
                    list,
                    docs,
                    is_legacy,
                    at[j],
                    (#[trigger] rows[j]).0,
                ) && rows[j].1 == frequency_at(list, at[j])
        }),
        forall|i: int, j: int| 0 <= i < j < at.len() ==> #[trigger] at[i] < #[trigger] at[j],
        forall|k: int, row: u64| #[trigger]
            stands_for(list, docs, is_legacy, k, row) ==> at.contains(k),
{
    lemma_live_rows(list, docs, is_legacy, entries(list) as nat)
}

proof fn lemma_live_rows(
    list: PostingList,
    docs: AddressKeyedDocuments,
    is_legacy: bool,
    n: nat,
) -> (at: Seq<int>)
    requires
        n <= entries(list),
    ensures
        ({
            let rows = live_rows(&list, &docs, is_legacy, n);
            &&& rows.len() == at.len()
            &&& forall|j: int|
                0 <= j < at.len() ==> stands_for(
                    list,
                    docs,
                    is_legacy,
                    at[j],
                    (#[trigger] rows[j]).0,
                ) && rows[j].1 == frequency_at(list, at[j])
        }),
        forall|j: int| 0 <= j < at.len() ==> #[trigger] at[j] < n,
        forall|i: int, j: int| 0 <= i < j < at.len() ==> #[trigger] at[i] < #[trigger] at[j],
        forall|k: int, row: u64|
            k < n && #[trigger] stands_for(list, docs, is_legacy, k, row) ==> at.contains(k),
    decreases n,
{
    if n == 0 {
        Seq::empty()
    } else {
        let k = n - 1;
        let before = lemma_live_rows(list, docs, is_legacy, k as nat);
        let rows0 = live_rows(&list, &docs, is_legacy, k as nat);
        let rows = live_rows(&list, &docs, is_legacy, n);
        if rows.len() == rows0.len() {
            assert forall|i: int, row: u64|
                i < n && #[trigger] stands_for(list, docs, is_legacy, i, row) implies before.contains(
                i,
            ) by {
                assert(i != k);
            }
            before
        } else {
            let at = before.push(k);
            assert(rows == rows0.push(rows.last()));
            assert forall|j: int| 0 <= j < at.len() implies stands_for(
                list,
                docs,
                is_legacy,
                at[j],
                (#[trigger] rows[j]).0,
            ) && rows[j].1 == frequency_at(list, at[j]) by {
                if j < before.len() {
                    assert(rows[j] == rows0[j]);
                }
            }
            assert forall|i: int, row: u64|
                i < n && #[trigger] stands_for(list, docs, is_legacy, i, row) implies at.contains(
                i,
            ) by {
                if i < k {
                    assert(before.contains(i));
                    let j = choose|j: int| 0 <= j < before.len() && before[j] == i;
                    assert(at[j] == i);
                } else {
                    assert(at[before.len() as int] == i);
                }
            }
            at
        }
    }
}

/// A total is what comes out when numbers are added one by one from the left,
/// each sum rounded, starting from zero.
pub proof fn law_total_adds_in_order(parts: Seq<Binary32>, sums: Seq<Binary32>)
    requires
        sums.len() == parts.len() + 1,
        sums[0].bits == 0,
        forall|j: int| 0 <= j < parts.len() ==> #[trigger] sums[j + 1] == sums[j].plus(parts[j]),
    ensures
        total(parts) == sums.last(),
    decreases parts.len(),
{
    if parts.len() > 0 {
        let (p, s) = (parts.drop_last(), sums.drop_last());
        assert forall|j: int| 0 <= j < p.len() implies #[trigger] s[j + 1] == s[j].plus(p[j]) by {
            assert(sums[j + 1] == sums[j].plus(parts[j]));
        }
        law_total_adds_in_order(p, s);
        let n = parts.len() - 1;
        assert(sums[n + 1] == sums[n].plus(parts[n]));
    }
}

/// Whether the entry `o.1` of the source `o.0` gives something to the frequency
/// at `row`.
pub open spec fn occurs(
    sources: Seq<LoadedSource>,
    selected: Set<u64>,
    row: u64,
    o: (int, int),
) -> bool {
    &&& 0 <= o.0 < sources.len()
    &&& selected.contains(row)
    &&& stands_for(
        *sources[o.0].posting,
        *sources[o.0].docs,
        sources[o.0].is_legacy,
        o.1,
        row,
    )
}

/// What an entry gives: the weight of its source times its frequency.
pub open spec fn share(sources: Seq<LoadedSource>, o: (int, int)) -> Binary32 {
    sources[o.0].weight.times(
        Binary32::of_count(frequency_at(*sources[o.0].posting, o.1)),
    )
}

/// The entries that give something to the frequency at `row`, source by source and
/// entry by entry.
pub open spec fn lists_occurrences(
    sources: Seq<LoadedSource>,
    selected: Set<u64>,
    row: u64,
    all: Seq<(int, int)>,
) -> bool {
    &&& forall|j: int| 0 <= j < all.len() ==> occurs(sources, selected, row, #[trigger] all[j])
    &&& forall|i: int, j: int|
        0 <= i < j < all.len() ==> (#[trigger] all[i]).0 < (#[trigger] all[j]).0 || (all[i].0
            == all[j].0 && all[i].1 < all[j].1)
    &&& forall|o: (int, int)| #[trigger] occurs(sources, selected, row, o) ==> all.contains(o)
}

/// The parts that are for `row`.
spec fn parts_for(parts: Seq<(u64, Binary32)>, row: u64) -> Seq<Binary32>
    decreases parts.len(),
{
    if parts.len() == 0 {
        Seq::empty()
    } else if parts.last().0 == row {
        parts_for(parts.drop_last(), row).push(parts.last().1)
    } else {
        parts_for(parts.drop_last(), row)
    }
}

proof fn lemma_parts_for(parts: Seq<(u64, Binary32)>, row: u64)
    ensures
        blended_tf(parts, row) == total(parts_for(parts, row)),
        has_row(parts, row) <==> parts_for(parts, row).len() > 0,
    decreases parts.len(),
{
    if parts.len() > 0 {
        let init = parts.drop_last();
        lemma_parts_for(init, row);
        assert(parts_for(init, row).push(parts.last().1).drop_last() =~= parts_for(init, row));
        if parts.last().0 == row {
            assert(parts[parts.len() - 1].0 == row);
        } else {
            if has_row(init, row) {
                let i = choose|i: int| 0 <= i < init.len() && (#[trigger] init[i]).0 == row;
                assert(parts[i].0 == row);
            }
            if has_row(parts, row) {
                let i = choose|i: int| 0 <= i < parts.len() && (#[trigger] parts[i]).0 == row;
                assert(init[i].0 == row);
            }
        }
    }
}

proof fn lemma_parts_for_both(a: Seq<(u64, Binary32)>, b: Seq<(u64, Binary32)>, row: u64)
    ensures
        parts_for(a + b, row) == parts_for(a, row) + parts_for(b, row),
    decreases b.len(),
{
    if b.len() == 0 {
        assert(a + b =~= a);
        assert(parts_for(a, row) + parts_for(b, row) =~= parts_for(a, row));
    } else {
        assert((a + b).drop_last() =~= a + b.drop_last());
        lemma_parts_for_both(a, b.drop_last(), row);
        if b.last().0 == row {
            assert(parts_for(a, row) + parts_for(b.drop_last(), row).push(b.last().1) =~= (
            parts_for(a, row) + parts_for(b.drop_last(), row)).push(b.last().1));
        }
    }
}

/// The entries of one source that are for `row`.
proof fn lemma_source_entries(
    sources: Seq<LoadedSource>,
    s: int,
    selected: Set<u64>,
    row: u64,
    n: nat,
) -> (all: Seq<(int, int)>)
    requires
        0 <= s < sources.len(),
        n <= entries(*sources[s].posting),
    ensures
        ({
            let source = sources[s];
            let rows = live_rows(source.posting, source.docs, source.is_legacy, n);
            parts_for(weighted_rows(rows, selected, source.weight), row) == Seq::new(
                all.len(),
                |j: int| share(sources, all[j]),
            )
        }),
        forall|j: int|
            0 <= j < all.len() ==> occurs(sources, selected, row, #[trigger] all[j]) && all[j].0
                == s && all[j].1 < n,
        forall|i: int, j: int|
            0 <= i < j < all.len() ==> (#[trigger] all[i]).1 < (#[trigger] all[j]).1,
        forall|k: int| k < n && #[trigger] occurs(sources, selected, row, (s, k)) ==> all.contains((s, k)),
    decreases n,
{
    let source = sources[s];
    let rows = live_rows(source.posting, source.docs, source.is_legacy, n);
    if n == 0 {
        let all = Seq::<(int, int)>::empty();
        assert(parts_for(weighted_rows(rows, selected, source.weight), row) =~= Seq::new(
            all.len(),
            |j: int| share(sources, all[j]),
        ));
        all
    } else {
        let k = n - 1;
        let before = lemma_source_entries(sources, s, selected, row, k as nat);
        let rows0 = live_rows(source.posting, source.docs, source.is_legacy, k as nat);
        let shares0 = Seq::new(before.len(), |j: int| share(sources, before[j]));
        if occurs(sources, selected, row, (s, k)) {
            let all = before.push((s, k));
            assert(rows == rows0.push((row, frequency_at(*source.posting, k))));
            assert(rows.drop_last() =~= rows0);
            let w0 = weighted_rows(rows0, selected, source.weight);
            assert(weighted_rows(rows, selected, source.weight).drop_last() =~= w0);
            assert(Seq::new(all.len(), |j: int| share(sources, all[j])) =~= shares0.push(
                share(sources, (s, k)),
            ));
            assert(parts_for(weighted_rows(rows, selected, source.weight), row) =~= Seq::new(
                all.len(),
                |j: int| share(sources, all[j]),
            ));
            assert forall|i: int|
                i < n && #[trigger] occurs(sources, selected, row, (s, i)) implies all.contains(
                (s, i),
            ) by {
                if i < k {
                    let j = choose|j: int| 0 <= j < before.len() && before[j] == (s, i);
                    assert(all[j] == (s, i));
                } else {
                    assert(all[before.len() as int] == (s, i));
                }
            }
            all
        } else {
            assert(parts_for(weighted_rows(rows, selected, source.weight), row) =~= parts_for(
                weighted_rows(rows0, selected, source.weight),
                row,
            )) by {
                if rows.len() > rows0.len() {
                    assert(rows.drop_last() =~= rows0);
                    let w0 = weighted_rows(rows0, selected, source.weight);
                    let w = weighted_rows(rows, selected, source.weight);
                    if w.len() > w0.len() {
                        assert(w.drop_last() =~= w0);
                        assert(w.last().0 != row);
                    }
                }
            }
            assert forall|i: int|
                i < n && #[trigger] occurs(sources, selected, row, (s, i)) implies before.contains(
                (s, i),
            ) by {
                assert(i != k);
            }
            before
        }
    }
}

/// The entries of the first `m` sources that are for `row`.
proof fn lemma_all_entries(
    sources: Seq<LoadedSource>,
    m: nat,
    selected: Set<u64>,
    row: u64,
) -> (all: Seq<(int, int)>)
    requires
        m <= sources.len(),
    ensures
        parts_for(contributions(sources.take(m as int), selected), row) == Seq::new(
            all.len(),
            |j: int| share(sources, all[j]),
        ),
        forall|j: int|
            0 <= j < all.len() ==> occurs(sources, selected, row, #[trigger] all[j]) && all[j].0
                < m,
        forall|i: int, j: int|
            0 <= i < j < all.len() ==> (#[trigger] all[i]).0 < (#[trigger] all[j]).0 || (all[i].0
                == all[j].0 && all[i].1 < all[j].1),
        forall|o: (int, int)|
            o.0 < m && #[trigger] occurs(sources, selected, row, o) ==> all.contains(o),
    decreases m,
{
    if m == 0 {
        let all = Seq::<(int, int)>::empty();
        assert(parts_for(contributions(sources.take(0), selected), row) =~= Seq::new(
            all.len(),
            |j: int| share(sources, all[j]),
        ));
        all
    } else {
        let s = m - 1;
        let source = sources[s];
        let before = lemma_all_entries(sources, s as nat, selected, row);
        let own = lemma_source_entries(
            sources,
            s,
            selected,
            row,
            entries(*source.posting) as nat,
        );
        let all = before + own;
        assert(sources.take(m as int).drop_last() =~= sources.take(s));
        assert(sources.take(m as int).last() == source);
        let rows = live_rows(source.posting, source.docs, source.is_legacy, source.posting.len_spec());
        lemma_parts_for_both(
            contributions(sources.take(s), selected),
            weighted_rows(rows, selected, source.weight),
            row,
        );
        assert(Seq::new(all.len(), |j: int| share(sources, all[j])) =~= Seq::new(
            before.len(),
            |j: int| share(sources, before[j]),
        ) + Seq::new(own.len(), |j: int| share(sources, own[j])));
        assert forall|o: (int, int)|
            o.0 < m && #[trigger] occurs(sources, selected, row, o) implies all.contains(o) by {
            if o.0 < s {
                let j = choose|j: int| 0 <= j < before.len() && before[j] == o;
                assert(all[j] == o);
            } else {
                assert(occurs(sources, selected, row, (s, o.1)));
                let j = choose|j: int| 0 <= j < own.len() && own[j] == (s, o.1);
                assert(all[before.len() + j] == o);
            }
        }
        all
    }
}

/// The blended frequency of a term at a row is the sum, from the left, of weight
/// times frequency over all entries of its sources that stand for the row, none
/// left out and none counted twice, source by source and entry by entry. A row
/// that no entry stands for, or that is not selected, has no posting.
pub proof fn law_blended_frequency(
    idf: Binary32,
    sources: Seq<LoadedSource>,
    selected: Set<u64>,
    row: u64,
) -> (all: Seq<(int, int)>)
    ensures
        lists_occurrences(sources, selected, row, all),
        ({
            let postings = term_of(idf, sources, selected).postings;
            &&& forall|i: int, j: int|
                0 <= i < j < postings.len() ==> (#[trigger] postings[i]).0 < (
                #[trigger] postings[j]).0
            &&& (exists|i: int| 0 <= i < postings.len() && (#[trigger] postings[i]).0 == row)
                <==> all.len() > 0
            &&& forall|i: int|
                0 <= i < postings.len() && (#[trigger] postings[i]).0 == row ==> postings[i].1
                    == total(Seq::new(all.len(), |j: int| share(sources, all[j])))
        }),
{
    let all = lemma_all_entries(sources, sources.len(), selected, row);
    let parts = contributions(sources, selected);
    assert(sources.take(sources.len() as int) =~= sources);
    lemma_parts_for(parts, row);
    lemma_merged(parts);
    let postings = term_of(idf, sources, selected).postings;
    assert(has_row(merged(parts), row) <==> has_row(parts, row));
    assert(ascending(postings));
    all
}

/// Whether a column, one of its indices and one of its partitions are there.
pub open spec fn is_place(columns: Seq<CombinedFieldColumn>, at: (int, int, int)) -> bool {
    &&& 0 <= at.0 < columns.len()
    &&& 0 <= at.1 < columns[at.0].indices@.len()
    &&& 0 <= at.2 < columns[at.0].indices@[at.1].partitions@.len()
}

/// The partition there.
pub open spec fn partition_at(
    columns: Seq<CombinedFieldColumn>,
    at: (int, int, int),
) -> LoadedPartition {
    columns[at.0].indices@[at.1].partitions@[at.2]
}

/// Column by column, index by index, partition by partition.
pub open spec fn place_before(a: (int, int, int), b: (int, int, int)) -> bool {
    a.0 < b.0 || (a.0 == b.0 && (a.1 < b.1 || (a.1 == b.1 && a.2 < b.2)))
}

/// Every partition of every index of every column, once and in order.
pub open spec fn lists_places(
    columns: Seq<CombinedFieldColumn>,
    places: Seq<(int, int, int)>,
) -> bool {
    &&& forall|j: int| 0 <= j < places.len() ==> is_place(columns, #[trigger] places[j])
    &&& forall|i: int, j: int|
        0 <= i < j < places.len() ==> place_before(#[trigger] places[i], #[trigger] places[j])
    &&& forall|at: (int, int, int)| #[trigger] is_place(columns, at) ==> places.contains(at)
}

proof fn lemma_index_places(
    columns: Seq<CombinedFieldColumn>,
    c: int,
    m: nat,
) -> (places: Seq<(int, int, int)>)
    requires
        0 <= c < columns.len(),
        m <= columns[c].indices@.len(),
    ensures
        index_partitions(columns[c].indices@.take(m as int), columns[c].weight) == Seq::new(
            places.len(),
            |j: int| (columns[places[j].0].weight, partition_at(columns, places[j])),
        ),
        forall|j: int|
            0 <= j < places.len() ==> is_place(columns, #[trigger] places[j]) && places[j].0 == c
                && places[j].1 < m,
        forall|i: int, j: int|
            0 <= i < j < places.len() ==> place_before(#[trigger] places[i], #[trigger] places[j]),
        forall|at: (int, int, int)|
            at.0 == c && at.1 < m && #[trigger] is_place(columns, at) ==> places.contains(at),
    decreases m,
{
    let column = columns[c];
    if m == 0 {
        let places = Seq::<(int, int, int)>::empty();
        assert(index_partitions(column.indices@.take(0), column.weight) =~= Seq::new(
            places.len(),
            |j: int| (columns[places[j].0].weight, partition_at(columns, places[j])),
        ));
        places
    } else {
        let i = m - 1;
        let before = lemma_index_places(columns, c, i as nat);
        let own = column.indices@[i].partitions@;
        let places = before + Seq::new(own.len(), |p: int| (c, i, p));
        let indices = column.indices@.take(m as int);
        assert(indices.drop_last() =~= column.indices@.take(i));
        assert(indices.last() == column.indices@[i]);
        assert(index_partitions(indices, column.weight) =~= Seq::new(
            places.len(),
            |j: int| (columns[places[j].0].weight, partition_at(columns, places[j])),
        ));
        assert forall|at: (int, int, int)|
            at.0 == c && at.1 < m && #[trigger] is_place(columns, at) implies places.contains(
            at,
        ) by {
            if at.1 < i {
                let j = choose|j: int| 0 <= j < before.len() && before[j] == at;
                assert(places[j] == at);
            } else {
                assert(places[before.len() + at.2] == at);
            }
        }
        places
    }
}

proof fn lemma_places(columns: Seq<CombinedFieldColumn>, m: nat) -> (places: Seq<(int, int, int)>)
    requires
        m <= columns.len(),
    ensures
        all_partitions(columns.take(m as int)) == Seq::new(
            places.len(),
            |j: int| (columns[places[j].0].weight, partition_at(columns, places[j])),
        ),
        forall|j: int|
            0 <= j < places.len() ==> is_place(columns, #[trigger] places[j]) && places[j].0 < m,
        forall|i: int, j: int|
            0 <= i < j < places.len() ==> place_before(#[trigger] places[i], #[trigger] places[j]),
        forall|at: (int, int, int)|
            at.0 < m && #[trigger] is_place(columns, at) ==> places.contains(at),
    decreases m,
{
    if m == 0 {
        let places = Seq::<(int, int, int)>::empty();
        assert(all_partitions(columns.take(0)) =~= Seq::new(
            places.len(),
            |j: int| (columns[places[j].0].weight, partition_at(columns, places[j])),
        ));
        places
    } else {
        let c = m - 1;
        let before = lemma_places(columns, c as nat);
        let own = lemma_index_places(columns, c, columns[c].indices@.len());
        let places = before + own;
        let some = columns.take(m as int);
        assert(some.drop_last() =~= columns.take(c));
        assert(some.last() == columns[c]);
        assert(columns[c].indices@.take(columns[c].indices@.len() as int) =~= columns[c].indices@);
        assert(all_partitions(some) =~= Seq::new(
            places.len(),
            |j: int| (columns[places[j].0].weight, partition_at(columns, places[j])),
        ));
        assert forall|at: (int, int, int)|
            at.0 < m && #[trigger] is_place(columns, at) implies places.contains(at) by {
            if at.0 < c {
                let j = choose|j: int| 0 <= j < before.len() && before[j] == at;
                assert(places[j] == at);
            } else {
                let j = choose|j: int| 0 <= j < own.len() && own[j] == at;
                assert(places[before.len() + j] == at);
            }
        }
        places
    }
}

/// A search goes over every partition of every index of every column, each with
/// the weight of its column, once and in order.
pub proof fn law_every_partition_counts(columns: Seq<CombinedFieldColumn>) -> (places: Seq<
    (int, int, int),
>)
    ensures
        lists_places(columns, places),
        all_partitions(columns).len() == places.len(),
        forall|j: int|
            0 <= j < places.len() ==> #[trigger] all_partitions(columns)[j] == (
                columns[places[j].0].weight,
                partition_at(columns, places[j]),
            ),
{
    let places = lemma_places(columns, columns.len());
    assert(columns.take(columns.len() as int) =~= columns);
    places
}

/// Whether `dl` is the blended length of the document at `row`: the sum, from the
/// left, of column weight times document length over all partitions.
pub open spec fn is_length(columns: Seq<CombinedFieldColumn>, row: u64, dl: Binary32) -> bool {
    exists|places: Seq<(int, int, int)>| #[trigger]
        lists_places(columns, places) && dl == total(
            Seq::new(
                places.len(),
                |j: int|
                    columns[places[j].0].weight.times(
                        Binary32::of_count(partition_at(columns, places[j]).docs.length_at(row)),
                    ),
            ),
        )
}

/// Every partition's weight times length is one summand of the blended length.
pub proof fn law_blended_length(columns: Seq<CombinedFieldColumn>, row: u64)
    ensures
        is_length(columns, row, blended_lengths(all_partitions(columns))(row)),
{
    let places = law_every_partition_counts(columns);
    let parts = Seq::new(
        places.len(),
        |j: int|
            columns[places[j].0].weight.times(
                Binary32::of_count(partition_at(columns, places[j]).docs.length_at(row)),
            ),
    );
    let all = all_partitions(columns);
    assert forall|j: int| 0 <= j < places.len() implies #[trigger] length_parts(all, row)[j]
        == parts[j] by {
        assert(all[j] == (columns[places[j].0].weight, partition_at(columns, places[j])));
    }
    assert(length_parts(all, row) =~= parts);
    assert(lists_places(columns, places));
}

/// Whether entry `f` of a partition's posting lists is the one for a term.
pub open spec fn is_list_for(partition: LoadedPartition, term: Seq<char>, f: int) -> bool {
    &&& 0 <= f < partition.postings@.len()
    &&& partition.postings@[f].0@ == term
    &&& forall|g: int| 0 <= g < f ==> (#[trigger] partition.postings@[g]).0@ != term
}

proof fn lemma_list_for(postings: Seq<(String, PostingList)>, term: Seq<char>) -> (f: int)
    ensures
        posting_of(postings, term) matches Some(list) ==> {
            &&& 0 <= f < postings.len()
            &&& postings[f].0@ == term
            &&& list == postings[f].1
            &&& forall|g: int| 0 <= g < f ==> (#[trigger] postings[g]).0@ != term
        },
        posting_of(postings, term) is None ==> forall|g: int|
            0 <= g < postings.len() ==> (#[trigger] postings[g]).0@ != term,
    decreases postings.len(),
{
    if postings.len() == 0 || postings.first().0@ == term {
        0
    } else {
        let rest = postings.drop_first();
        let f = lemma_list_for(rest, term);
        if posting_of(postings, term) is None {
            assert forall|g: int| 0 <= g < postings.len() implies (#[trigger] postings[g]).0@
                != term by {
                if g > 0 {
                    assert(rest[g - 1] == postings[g]);
                }
            }
        } else {
            assert forall|g: int| 0 <= g < f + 1 implies (#[trigger] postings[g]).0@ != term by {
                if g > 0 {
                    assert(rest[g - 1] == postings[g]);
                }
            }
        }
        f + 1
    }
}

/// A partition that has no posting list for a term gives nothing to it.
pub proof fn law_no_list_gives_nothing(partition: LoadedPartition, term: Seq<char>)
    requires
        forall|g: int|
            0 <= g < partition.postings@.len() ==> (#[trigger] partition.postings@[g]).0@ != term,
    ensures
        posting_of(partition.postings@, term) is None,
{
    let g = lemma_list_for(partition.postings@, term);
    if posting_of(partition.postings@, term) is Some {
        assert(partition.postings@[g].0@ == term);
    }
}

/// The first posting list that a partition has for a term is the one that counts.
pub proof fn law_first_list_counts(partition: LoadedPartition, term: Seq<char>, f: int)
    requires
        is_list_for(partition, term, f),
    ensures
        posting_of(partition.postings@, term) == Some(partition.postings@[f].1),
{
    let g = lemma_list_for(partition.postings@, term);
    assert(partition.postings@[f].0@ == term);
    if g < f {
        assert(partition.postings@[g].0@ == term);
    }
}

/// An entry of a posting list: its place, the number of the list there, and the
/// number of the entry.
pub struct Occurrence {
    pub place: (int, int, int),
    pub list: int,
    pub entry: int,
}

/// Whether an entry of a query term's posting lists stands for a selected row.
pub open spec fn is_occurrence(
    columns: Seq<CombinedFieldColumn>,
    selected: Set<u64>,
    term: Seq<char>,
    row: u64,
    o: Occurrence,
) -> bool {
    let partition = partition_at(columns, o.place);
    &&& is_place(columns, o.place)
    &&& is_list_for(partition, term, o.list)
    &&& selected.contains(row)
    &&& stands_for(
        partition.postings@[o.list].1,
        partition.docs,
        partition.is_legacy,
        o.entry,
        row,
    )
}

/// What an entry gives to the blended frequency: column weight times frequency.
pub open spec fn occurrence_share(
    columns: Seq<CombinedFieldColumn>,
    o: Occurrence,
) -> Binary32 {
    columns[o.place.0].weight.times(
        Binary32::of_count(
            frequency_at(partition_at(columns, o.place).postings@[o.list].1, o.entry),
        ),
    )
}

/// All such entries, place by place and entry by entry.
pub open spec fn lists_term(
    columns: Seq<CombinedFieldColumn>,
    selected: Set<u64>,
    term: Seq<char>,
    row: u64,
    all: Seq<Occurrence>,
) -> bool {
    &&& forall|j: int|
        0 <= j < all.len() ==> is_occurrence(columns, selected, term, row, #[trigger] all[j])
    &&& forall|i: int, j: int|
        0 <= i < j < all.len() ==> place_before(
            (#[trigger] all[i]).place,
            (#[trigger] all[j]).place,
        ) || (all[i].place == all[j].place && all[i].entry < all[j].entry)
    &&& forall|o: Occurrence| #[trigger]
        is_occurrence(columns, selected, term, row, o) ==> all.contains(o)
}

/// Whether `tf` is the blended frequency of a term at `row`: the sum, from the
/// left, of column weight times frequency over all entries that stand for it.
pub open spec fn is_frequency(
    columns: Seq<CombinedFieldColumn>,
    selected: Set<u64>,
    term: Seq<char>,
    row: u64,
    tf: Binary32,
) -> bool {
    exists|all: Seq<Occurrence>| #[trigger]
        lists_term(columns, selected, term, row, all) && tf == total(
            Seq::new(all.len(), |j: int| occurrence_share(columns, all[j])),
        )
}

/// Which partition each source of a term comes from.
proof fn lemma_sources(
    partitions: Seq<(Binary32, LoadedPartition)>,
    term: Seq<char>,
) -> (from: Seq<int>)
    ensures
        sources_of(partitions, term).len() == from.len(),
        forall|s: int|
            0 <= s < from.len() ==> {
                let source = #[trigger] sources_of(partitions, term)[s];
                let (weight, partition) = partitions[from[s]];
                &&& 0 <= from[s] < partitions.len()
                &&& source.weight == weight
                &&& *source.docs == partition.docs
                &&& source.is_legacy == partition.is_legacy
                &&& posting_of(partition.postings@, term) == Some(*source.posting)
            },
        forall|i: int, j: int| 0 <= i < j < from.len() ==> #[trigger] from[i] < #[trigger] from[j],
        forall|q: int|
            0 <= q < partitions.len() && posting_of(
                (#[trigger] partitions[q]).1.postings@,
                term,
            ) is Some ==> from.contains(q),
    decreases partitions.len(),
{
    if partitions.len() == 0 {
        Seq::empty()
    } else {
        let init = partitions.drop_last();
        let before = lemma_sources(init, term);
        let n = partitions.len() - 1;
        let held = posting_of(partitions.last().1.postings@, term) is Some;
        let from = if held {
            before.push(n)
        } else {
            before
        };
        assert forall|s: int| 0 <= s < from.len() implies ({
            let source = #[trigger] sources_of(partitions, term)[s];
            let (weight, partition) = partitions[from[s]];
            &&& 0 <= from[s] < partitions.len()
            &&& source.weight == weight
            &&& *source.docs == partition.docs
            &&& source.is_legacy == partition.is_legacy
            &&& posting_of(partition.postings@, term) == Some(*source.posting)
        }) by {
            if s < before.len() {
                assert(sources_of(partitions, term)[s] == sources_of(init, term)[s]);
                assert(init[before[s]] == partitions[before[s]]);
            }
        }
        assert forall|i: int, j: int| 0 <= i < j < from.len() implies #[trigger] from[i]
            < #[trigger] from[j] by {
            let _ = sources_of(init, term)[i];
            assert(i < before.len());
        }
        assert forall|q: int|
            0 <= q < partitions.len() && posting_of(
                (#[trigger] partitions[q]).1.postings@,
                term,
            ) is Some implies from.contains(q) by {
            if q < n {
                assert(init[q] == partitions[q]);
                let j = choose|j: int| 0 <= j < before.len() && before[j] == q;
                assert(from[j] == q);
            } else {
                assert(from[before.len() as int] == q);
            }
        }
        from
    }
}

/// The posting of a query term at a row, found in the columns: its frequency adds
/// up over every entry of every partition that stands for the row, and there is
/// one exactly if there is such an entry.
#[verifier::rlimit(60)]
pub proof fn law_query_frequency(
    columns: Seq<CombinedFieldColumn>,
    tokens: Seq<String>,
    selected: Set<u64>,
    weights: Seq<(String, Binary32)>,
    t: int,
    row: u64,
)
    requires
        0 <= t < distinct(tokens).len(),
    ensures
        ({
            let postings = query_terms(columns, tokens, selected, weights)[t].postings;
            let term = distinct(tokens)[t];
            &&& is_frequency(columns, selected, term, row, tf_at(postings, row))
            &&& has_row(postings, row) <==> exists|o: Occurrence| #[trigger]
                is_occurrence(columns, selected, term, row, o)
        }),
{
    let term = distinct(tokens)[t];
    let partitions = all_partitions(columns);
    let sources = sources_of(partitions, term);
    let idf = listed_weight(weights, term);
    let places = law_every_partition_counts(columns);
    let from = lemma_sources(partitions, term);
    let all = law_blended_frequency(idf, sources, selected, row);
    let postings = query_terms(columns, tokens, selected, weights)[t].postings;
    assert(postings == term_of(idf, sources, selected).postings);
    let lists = Seq::new(
        all.len(),
        |j: int|
            list_index(partition_at(columns, places[from[all[j].0]]), term),
    );
    let occ = Seq::new(
        all.len(),
        |j: int|
            Occurrence { place: places[from[all[j].0]], list: lists[j], entry: all[j].1 },
    );
    assert forall|s: int| 0 <= s < sources.len() implies ({
        let at = places[#[trigger] from[s]];
        let f = list_index(partition_at(columns, at), term);
        &&& 0 <= from[s] < places.len()
        &&& is_place(columns, at)
        &&& is_list_for(partition_at(columns, at), term, f)
        &&& *sources[s].posting == partition_at(columns, at).postings@[f].1
        &&& *sources[s].docs == partition_at(columns, at).docs
        &&& sources[s].is_legacy == partition_at(columns, at).is_legacy
        &&& sources[s].weight == columns[at.0].weight
    }) by {
        let source = sources_of(partitions, term)[s];
        let at = places[from[s]];
        assert(partitions[from[s]] == (columns[at.0].weight, partition_at(columns, at)));
        let partition = partition_at(columns, at);
        let g = lemma_list_for(partition.postings@, term);
        assert(is_list_for(partition, term, g));
        let f = list_index(partition, term);
        law_first_list_counts(partition, term, f);
    }
    assert forall|j: int| 0 <= j < occ.len() implies is_occurrence(
        columns,
        selected,
        term,
        row,
        #[trigger] occ[j],
    ) && occurrence_share(columns, occ[j]) == share(sources, all[j]) by {
        assert(occurs(sources, selected, row, all[j]));
        let s = all[j].0;
        let at = places[from[s]];
    }
    assert forall|i: int, j: int| 0 <= i < j < occ.len() implies place_before(
        (#[trigger] occ[i]).place,
        (#[trigger] occ[j]).place,
    ) || (occ[i].place == occ[j].place && occ[i].entry < occ[j].entry) by {
        assert(occurs(sources, selected, row, all[i]));
        assert(occurs(sources, selected, row, all[j]));
        let (a, b) = (all[i], all[j]);
        if a.0 < b.0 {
            assert(from[a.0] < from[b.0]);
            let (x, y) = (places[from[a.0]], places[from[b.0]]);
            assert(place_before(x, y));
        }
    }
    assert forall|o: Occurrence| #[trigger]
        is_occurrence(columns, selected, term, row, o) implies occ.contains(o) by {
        assert(places.contains(o.place));
        let q = choose|q: int| 0 <= q < places.len() && places[q] == o.place;
        let partition = partition_at(columns, o.place);
        assert(partitions[q] == (columns[places[q].0].weight, partition_at(columns, places[q])));
        law_first_list_counts(partition, term, o.list);
        assert(from.contains(q));
        let s = choose|s: int| 0 <= s < from.len() && from[s] == q;
        let f = list_index(partition, term);
        assert(places[from[s]] == o.place);
        assert(is_list_for(partition, term, f));
        if f < o.list {
            assert(partition.postings@[f].0@ == term);
        } else if o.list < f {
            assert(partition.postings@[o.list].0@ == term);
        }
        assert(occurs(sources, selected, row, (s, o.entry)));
        let j = choose|j: int| 0 <= j < all.len() && all[j] == (s, o.entry);
        assert(occ[j] == o);
    }
    assert(lists_term(columns, selected, term, row, occ));
    let shares = Seq::new(occ.len(), |j: int| occurrence_share(columns, occ[j]));
    assert(shares =~= Seq::new(all.len(), |j: int| share(sources, all[j])));
    if has_row(postings, row) {
        let i = choose|i: int| 0 <= i < postings.len() && (#[trigger] postings[i]).0 == row;
        lemma_tf_at(postings, i);
        assert(is_occurrence(columns, selected, term, row, occ[0]));
    } else {
        assert(shares.len() == 0);
        if exists|o: Occurrence| #[trigger] is_occurrence(columns, selected, term, row, o) {
            let o = choose|o: Occurrence| #[trigger]
                is_occurrence(columns, selected, term, row, o);
            assert(occ.contains(o));
        }
    }
}

/// The number of the posting list that counts.
spec fn list_index(partition: LoadedPartition, term: Seq<char>) -> int {
    choose|f: int| is_list_for(partition, term, f)
}

/// The score of a document: from the left, over the terms with a positive
/// frequency there, the rounded sum of term weight times document weight.
pub open spec fn is_sum_of_products(
    idfs: Seq<Binary32>,
    tfs: Seq<Binary32>,
    avg_doc_length: Binary32,
    dl: Binary32,
    sums: Seq<Binary32>,
) -> bool {
    &&& idfs.len() == tfs.len()
    &&& sums.len() == tfs.len() + 1
    &&& sums[0].bits == 0
    &&& forall|t: int|
        0 <= t < tfs.len() ==> #[trigger] sums[t + 1] == (if tfs[t].at_most(
            Binary32::zero_spec(),
        ) {
            sums[t]
        } else {
            sums[t].plus(idfs[t].times(bm25_weight(avg_doc_length, tfs[t], dl)))
        })
}

/// What a row scores over some terms is the sum of the products of term weight and
/// document weight, each whole, over the terms that hold it.
pub proof fn law_score_is_sum_of_products(
    terms: Seq<TermModel>,
    avg_doc_length: Binary32,
    lengths: spec_fn(u64) -> Binary32,
    row: u64,
) -> (sums: Seq<Binary32>)
    ensures
        is_sum_of_products(
            Seq::new(terms.len(), |t: int| terms[t].idf),
            Seq::new(terms.len(), |t: int| tf_at(terms[t].postings, row)),
            avg_doc_length,
            lengths(row),
            sums,
        ),
        scoring(terms, avg_doc_length, lengths)(row) == sums.last(),
    decreases terms.len(),
{
    if terms.len() == 0 {
        seq![Binary32 { bits: 0 }]
    } else {
        let init = terms.drop_last();
        let before = law_score_is_sum_of_products(init, avg_doc_length, lengths, row);
        let sums = before.push(scoring(terms, avg_doc_length, lengths)(row));
        let tfs = Seq::new(terms.len(), |t: int| tf_at(terms[t].postings, row));
        let idfs = Seq::new(terms.len(), |t: int| terms[t].idf);
        assert forall|t: int| 0 <= t < tfs.len() implies #[trigger] sums[t + 1] == (
        if tfs[t].at_most(Binary32::zero_spec()) {
            sums[t]
        } else {
            sums[t].plus(idfs[t].times(bm25_weight(avg_doc_length, tfs[t], lengths(row))))
        }) by {
            if t < init.len() {
                assert(before[t + 1] == sums[t + 1]);
                assert(init[t] == terms[t]);
                let tfs0 = Seq::new(init.len(), |t: int| tf_at(init[t].postings, row));
                let idfs0 = Seq::new(init.len(), |t: int| init[t].idf);
                assert(tfs0[t] == tfs[t] && idfs0[t] == idfs[t]);
            } else {
                assert(sums[t] == before.last());
            }
        }
        sums
    }
}

/// With a single term of a finite weight, a document that holds it scores the
/// term's weight times the document's weight and nothing else.
pub proof fn law_single_term_score(
    term: TermModel,
    avg_doc_length: Binary32,
    lengths: spec_fn(u64) -> Binary32,
    i: int,
)
    requires
        ascending(term.postings),
        term.idf.is_finite(),
        0 <= i < term.postings.len(),
        Binary32::zero_spec().before(term.postings[i].1),
    ensures
        ({
            let (row, tf) = term.postings[i];
            let product = term.idf.times(bm25_weight(avg_doc_length, tf, lengths(row)));
            let score = scoring(seq![term], avg_doc_length, lengths)(row);
            // A product that is negative zero counts as zero.
            score == product || (product.bits == 0x8000_0000 && score.bits == 0)
        }),
{
    let (row, tf) = term.postings[i];
    let terms = seq![term];
    lemma_tf_at(term.postings, i);
    let sums = law_score_is_sum_of_products(terms, avg_doc_length, lengths, row);
    assert(terms[0] == term);
    assert(sums[1] == sums[0].plus(term.idf.times(bm25_weight(avg_doc_length, tf, lengths(row)))))
        by {
        let t: int = 0;
        assert(sums[t + 1] == sums[1]);
    }
    law_doc_weight_range(avg_doc_length, tf, lengths(row));
    let w = bm25_weight(avg_doc_length, tf, lengths(row));
    lemma_times_finite(term.idf, w, w);
    lemma_zero_plus(term.idf.times(w));
}

/// What a search returns, said of the columns: every document found is at a
/// selected row that some query term occurs in, or every one if all are required,
/// and its score is the sum over the terms of weight times document weight, from
/// the blended frequencies and the blended length of the row.
pub proof fn law_found_documents(
    columns: Seq<CombinedFieldColumn>,
    tokens: Seq<String>,
    selected: Set<u64>,
    weights: Seq<(String, Binary32)>,
    avg_doc_length: Binary32,
    require_all: bool,
    limit: nat,
    found: Seq<RankedDoc>,
    i: int,
) -> (r: (Seq<Binary32>, Binary32, Seq<Binary32>))
    requires
        is_top_k(
            found,
            matching(query_terms(columns, tokens, selected, weights), require_all),
            scoring(
                query_terms(columns, tokens, selected, weights),
                avg_doc_length,
                blended_lengths(all_partitions(columns)),
            ),
            limit,
        ),
        0 <= i < found.len(),
    ensures
        ({
            let (tfs, dl, sums) = r;
            let row = found[i].row_id;
            let terms = distinct(tokens);
            &&& tfs.len() == terms.len()
            &&& forall|t: int|
                0 <= t < terms.len() ==> is_frequency(
                    columns,
                    selected,
                    terms[t],
                    row,
                    #[trigger] tfs[t],
                )
            &&& is_length(columns, row, dl)
            &&& is_sum_of_products(
                Seq::new(terms.len(), |t: int| listed_weight(weights, terms[t])),
                tfs,
                avg_doc_length,
                dl,
                sums,
            )
            &&& found[i].score == sums.last()
            &&& selected.contains(row)
            &&& exists|t: int, o: Occurrence|
                0 <= t < terms.len() && #[trigger] is_occurrence(
                    columns,
                    selected,
                    terms[t],
                    row,
                    o,
                )
            &&& require_all ==> forall|t: int|
                0 <= t < terms.len() ==> !(#[trigger] tfs[t]).at_most(Binary32::zero_spec())
        }),
{
    let row = found[i].row_id;
    let terms = distinct(tokens);
    let models = query_terms(columns, tokens, selected, weights);
    let lengths = blended_lengths(all_partitions(columns));
    let tfs = Seq::new(models.len(), |t: int| tf_at(models[t].postings, row));
    let dl = lengths(row);
    let sums = law_score_is_sum_of_products(models, avg_doc_length, lengths, row);
    assert(matching(models, require_all)(row));
    assert(is_match(models, require_all, row));
    assert forall|t: int| 0 <= t < terms.len() implies is_frequency(
        columns,
        selected,
        terms[t],
        row,
        #[trigger] tfs[t],
    ) by {
        law_query_frequency(columns, tokens, selected, weights, t, row);
    }
    law_blended_length(columns, row);
    assert(Seq::new(models.len(), |t: int| models[t].idf) =~= Seq::new(
        terms.len(),
        |t: int| listed_weight(weights, terms[t]),
    ));
    let t = choose|t: int| 0 <= t < models.len() && has_row((#[trigger] models[t]).postings, row);
    law_query_frequency(columns, tokens, selected, weights, t, row);
    let o = choose|o: Occurrence| #[trigger] is_occurrence(columns, selected, terms[t], row, o);
    assert(is_occurrence(columns, selected, terms[t], row, o));
    if require_all {
        assert forall|t: int| 0 <= t < terms.len() implies !(#[trigger] tfs[t]).at_most(
            Binary32::zero_spec(),
        ) by {
            assert(!tf_at(models[t].postings, row).at_most(Binary32::zero_spec()));
        }
    }
    (tfs, dl, sums)
}

/// Nothing is overlooked: every selected row that an entry of a query term stands
/// for, in any partition of any index of any column, is found by a search for any
/// term, unless as many documents as the limit admits are found, each of them with
/// no lower score.
pub proof fn law_every_occurrence_is_found(
    columns: Seq<CombinedFieldColumn>,
    tokens: Seq<String>,
    selected: Set<u64>,
    weights: Seq<(String, Binary32)>,
    avg_doc_length: Binary32,
    limit: nat,
    found: Seq<RankedDoc>,
    t: int,
    row: u64,
    o: Occurrence,
)
    requires
        is_top_k(
            found,
            matching(query_terms(columns, tokens, selected, weights), false),
            scoring(
                query_terms(columns, tokens, selected, weights),
                avg_doc_length,
                blended_lengths(all_partitions(columns)),
            ),
            limit,
        ),
        0 <= t < distinct(tokens).len(),
        is_occurrence(columns, selected, distinct(tokens)[t], row, o),
    ensures
        is_match(query_terms(columns, tokens, selected, weights), false, row),
        (exists|i: int| 0 <= i < found.len() && (#[trigger] found[i]).row_id == row) || (
        found.len() == limit && forall|i: int|
            0 <= i < found.len() ==> !(#[trigger] found[i]).score.before(
                scoring(
                    query_terms(columns, tokens, selected, weights),
                    avg_doc_length,
                    blended_lengths(all_partitions(columns)),
                )(row),
            )),
{
    let models = query_terms(columns, tokens, selected, weights);
    law_query_frequency(columns, tokens, selected, weights, t, row);
    assert(has_row(models[t].postings, row));
    assert(matching(models, false)(row));
}

} // verus!
