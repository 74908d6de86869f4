//! Loaded index data: which row each document of a partition stands for, how
//! long it is, and the posting lists over its documents.
use crate::binary::Binary32;
use std::collections::BTreeMap;
use vstd::prelude::*;

verus! {

/// The address that a deleted document's slot answers with.
pub const TOMBSTONE_ROW: u64 = 0xffff_ffff_ffff_ffff;

/// The documents of one partition, found by document id or by row address.
pub struct AddressKeyedDocuments {
    addresses: Vec<u64>,
    lengths: BTreeMap<u64, u32>,
}

/// The length of the first document at `row`, 0 if there is none. A tombstone
/// is the address of no document.
pub open spec fn length_of_row(addresses: Seq<u64>, lengths: Seq<u32>, row: u64) -> u32
    decreases addresses.len(),
{
    if addresses.len() == 0 || row == TOMBSTONE_ROW {
        0
    } else if addresses.drop_last().contains(row) || addresses.last() != row {
        length_of_row(addresses.drop_last(), lengths.drop_last(), row)
    } else {
        lengths.last()
    }
}

impl AddressKeyedDocuments {
    /// The address of each document, by document id.
    pub closed spec fn addresses(&self) -> Seq<u64> {
        self.addresses@
    }

    /// The length of the document at a row address, 0 if there is none.
    pub closed spec fn length_at(&self, row: u64) -> u32 {
        if self.lengths@.contains_key(row) {
            self.lengths@[row]
        } else {
            0
        }
    }

    /// The address of a document, that of a tombstone if there is no such document.
    pub open spec fn address_of(&self, doc_id: int) -> u64 {
        if 0 <= doc_id < self.addresses().len() {
            self.addresses()[doc_id]
        } else {
            TOMBSTONE_ROW
        }
    }

    /// Documents by id, with the address and the length of each.
    pub fn new(addresses: Vec<u64>, lengths: &Vec<u32>) -> (docs: Self)
        requires
            addresses@.len() == lengths@.len(),
        ensures
            docs.addresses() == addresses@,
            forall|row: u64| #[trigger]
                docs.length_at(row) == length_of_row(addresses@, lengths@, row),
    {
        let mut by_row: BTreeMap<u64, u32> = BTreeMap::new();
        let mut i: usize = 0;
        while i < addresses.len()
            invariant
                i <= addresses.len(),
                addresses@.len() == lengths@.len(),
                forall|row: u64| #[trigger]
                    by_row@.contains_key(row) <==> row != TOMBSTONE_ROW && addresses@.take(
                        i as int,
                    ).contains(row),
                forall|row: u64|
                    (if by_row@.contains_key(row) {
                        by_row@[row]
                    } else {
                        0
                    }) == #[trigger] length_of_row(
                        addresses@.take(i as int),
                        lengths@.take(i as int),
                        row,
                    ),
            decreases addresses.len() - i,
        {
            let row = addresses[i];
            let ghost before = addresses@.take(i as int);
            let ghost after = addresses@.take(i + 1);
            proof {
                assert(after.drop_last() == before);
                assert(lengths@.take(i + 1).drop_last() == lengths@.take(i as int));
                assert(after == before.push(row));
                assert forall|r: u64| after.contains(r) <==> before.contains(r) || r == row by {
                    if before.contains(r) {
                        let j = choose|j: int| 0 <= j < before.len() && before[j] == r;
                        assert(after[j] == r);
                    }
                    assert(after[i as int] == row);
                }
            }
            let ghost known = by_row@;
            if row != TOMBSTONE_ROW && !by_row.contains_key(&row) {
                by_row.insert(row, lengths[i]);
            }
            proof {
                assert forall|r: u64|
                    (if by_row@.contains_key(r) {
                        by_row@[r]
                    } else {
                        0
                    }) == #[trigger] length_of_row(after, lengths@.take(i + 1), r) by {
                    assert(length_of_row(before, lengths@.take(i as int), r) == (
                    if known.contains_key(r) {
                        known[r]
                    } else {
                        0
                    }));
                    assert(lengths@.take(i + 1).last() == lengths@[i as int]);
                }
            }
            i = i + 1;
        }
        proof {
            assert(addresses@.take(addresses.len() as int) == addresses@);
            assert(lengths@.take(addresses.len() as int) == lengths@);
        }
        AddressKeyedDocuments { addresses, lengths: by_row }
    }

    fn address(&self, key: u64) -> (row: u64)
        ensures
            row == self.address_of(key as int),
    {
        if key < self.addresses.len() as u64 {
            self.addresses[key as usize]
        } else {
            TOMBSTONE_ROW
        }
    }

    /// The address of a document, that of a tombstone if there is no such document.
    pub fn row_address(&self, doc_id: u32) -> (row: u64)
        ensures
            row == self.address_of(doc_id as int),
            doc_id < self.addresses().len() ==> row == self.addresses()[doc_id as int],
    {
        self.address(doc_id as u64)
    }

    /// The length of the document at a row address, 0 if there is none.
    pub fn doc_length_at(&self, row: u64) -> (length: u32)
        ensures
            length == self.length_at(row),
    {
        match self.lengths.get(&row) {
            Some(length) => *length,
            None => 0,
        }
    }
}

/// The blended length of the document at each row.
pub trait DocumentLengths {
    /// The length.
    spec fn length_spec(&self, row: u64) -> Binary32;

    /// The blended length of the document at `row`.
    fn dl_prime(&self, row: u64) -> (dl: Binary32)
        ensures
            dl == self.length_spec(row),
    ;
}

/// The length that is found for each row.
pub open spec fn lengths_of<L: DocumentLengths>(lengths: &L) -> spec_fn(u64) -> Binary32 {
    |row: u64| lengths.length_spec(row)
}

/// Where a term occurs, and how often.
pub enum PostingList {
    /// Keys of 64 bits.
    Plain(Vec<(u64, u32)>),
    /// Document ids of 32 bits.
    Compressed(Vec<(u32, u32)>),
}

impl PostingList {
    /// How many entries there are.
    pub open spec fn len_spec(&self) -> nat {
        match self {
            PostingList::Plain(entries) => entries@.len(),
            PostingList::Compressed(entries) => entries@.len(),
        }
    }

    /// Key and frequency of one entry.
    pub open spec fn entry_spec(&self, i: int) -> (u64, u32) {
        match self {
            PostingList::Plain(entries) => entries@[i],
            PostingList::Compressed(entries) => (entries@[i].0 as u64, entries@[i].1),
        }
    }

    fn len(&self) -> (n: usize)
        ensures
            n == self.len_spec(),
    {
        match self {
            PostingList::Plain(entries) => entries.len(),
            PostingList::Compressed(entries) => entries.len(),
        }
    }

    fn entry(&self, i: usize) -> (e: (u64, u32))
        requires
            i < self.len_spec(),
        ensures
            e == self.entry_spec(i as int),
    {
        match self {
            PostingList::Plain(entries) => entries[i],
            PostingList::Compressed(entries) => (entries[i].0 as u64, entries[i].1),
        }
    }
}

/// The row that a posting key stands for: the key itself in a legacy
/// partition, else the address of the document.
pub open spec fn row_of_key(docs: &AddressKeyedDocuments, is_legacy: bool, key: u64) -> u64 {
    if is_legacy {
        key
    } else {
        docs.address_of(key as int)
    }
}

/// Row and frequency of the first `n` postings, tombstones left out.
pub open spec fn live_rows(
    posting: &PostingList,
    docs: &AddressKeyedDocuments,
    is_legacy: bool,
    n: nat,
) -> Seq<(u64, u32)>
    decreases n,
{
    if n == 0 {
        Seq::empty()
    } else {
        let before = live_rows(posting, docs, is_legacy, (n - 1) as nat);
        let (key, frequency) = posting.entry_spec(n - 1);
        let row = row_of_key(docs, is_legacy, key);
        if row == TOMBSTONE_ROW {
            before
        } else {
            before.push((row, frequency))
        }
    }
}

/// The rows that a posting list stands for, each with its frequency, in the
/// order of the list. Slots of deleted documents are left out.
pub fn live_posting_rows(
    posting: &PostingList,
    docs: &AddressKeyedDocuments,
    is_legacy: bool,
) -> (rows: Vec<(u64, u32)>)
    ensures
        rows@ == live_rows(posting, docs, is_legacy, posting.len_spec()),
{
    let mut rows: Vec<(u64, u32)> = Vec::new();
    let n = posting.len();
    let mut i: usize = 0;
    while i < n
        invariant
            i <= n == posting.len_spec(),
            rows@ == live_rows(posting, docs, is_legacy, i as nat),
        decreases n - i,
    {
        let (key, frequency) = posting.entry(i);
        let row = if is_legacy {
            key
        } else {
            docs.address(key)
        };
        if row != TOMBSTONE_ROW {
            rows.push((row, frequency));
        }
        i = i + 1;
    }
    rows
}

/// A document's number gives its address, unchanged.
pub proof fn law_number_gives_address(docs: AddressKeyedDocuments, d: int)
    ensures
        0 <= d < docs.addresses().len() ==> docs.address_of(d) == docs.addresses()[d],
        !(0 <= d < docs.addresses().len()) ==> docs.address_of(d) == u64::MAX,
{
}

/// A row has the length of the first document at it. A row that is the address of
/// no document has none, and neither has the address of deleted ones.
pub proof fn law_row_gives_length(addresses: Seq<u64>, lengths: Seq<u32>, row: u64)
    requires
        addresses.len() == lengths.len(),
    ensures
        forall|d: int|
            0 <= d < addresses.len() && #[trigger] addresses[d] == row && row < u64::MAX && (
            forall|e: int| 0 <= e < d ==> #[trigger] addresses[e] != row) ==> length_of_row(
                addresses,
                lengths,
                row,
            ) == lengths[d],
        row == u64::MAX || (forall|d: int|
            0 <= d < addresses.len() ==> #[trigger] addresses[d] != row) ==> length_of_row(
            addresses,
            lengths,
            row,
        ) == 0,
    decreases addresses.len(),
{
    if addresses.len() > 0 && row < u64::MAX {
        let init = addresses.drop_last();
        law_row_gives_length(init, lengths.drop_last(), row);
        assert forall|d: int|
            0 <= d < addresses.len() && #[trigger] addresses[d] == row && (forall|e: int|
                0 <= e < d ==> #[trigger] addresses[e] != row) implies length_of_row(
            addresses,
            lengths,
            row,
        ) == lengths[d] by {
            if d < init.len() {
                assert(init[d] == row);
                assert(init.contains(row));
                assert forall|e: int| 0 <= e < d implies #[trigger] init[e] != row by {
                    assert(addresses[e] != row);
                }
            } else {
                assert(!init.contains(row)) by {
                    if init.contains(row) {
                        let e = choose|e: int| 0 <= e < init.len() && init[e] == row;
                        assert(addresses[e] == row);
                    }
                }
            }
        }
        if forall|d: int| 0 <= d < addresses.len() ==> #[trigger] addresses[d] != row {
            assert(addresses[addresses.len() - 1] != row);
            assert forall|d: int| 0 <= d < init.len() implies #[trigger] init[d] != row by {
                assert(addresses[d] != row);
            }
        }
    }
}

/// The length that is found for a row is what the lengths answer for it.
pub proof fn law_lengths_answer_by_row<L: DocumentLengths>(lengths: &L, row: u64)
    ensures
        lengths_of(lengths)(row) == lengths.length_spec(row),
{
}

} // verus!
