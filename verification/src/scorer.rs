//! Cross-field BM25 weights.
use crate::binary::Binary32;
use vstd::prelude::*;

verus! {

/// `K1 = 1.2`, how soon the term frequency saturates.
pub open spec fn k1_spec() -> Binary32 {
    Binary32 { bits: 0x3f99_999a }
}

/// `K1 + 1`, where a document weight saturates but for rounding.
pub open spec fn saturation_spec() -> Binary32 {
    Binary32 { bits: 0x400c_cccd }
}

/// `B = 0.75`, how much of the length norm depends on the document.
pub open spec fn b_spec() -> Binary32 {
    Binary32 { bits: 0x3f40_0000 }
}

/// `1 - B`.
pub open spec fn one_minus_b_spec() -> Binary32 {
    Binary32 { bits: 0x3e80_0000 }
}

/// Four steps above `K1 + 1`: rounding takes no document weight further up.
pub open spec fn doc_weight_ceiling() -> Binary32 {
    Binary32 { bits: 0x400c_ccd1 }
}

/// `K1`.
pub fn k1() -> (r: Binary32)
    ensures
        r == k1_spec(),
{
    Binary32::from_bits(0x3f99_999a)
}

/// The largest weight that [`CombinedFieldsBM25Scorer::doc_weight`] returns.
pub fn bm25_doc_weight_upper_bound() -> (r: Binary32)
    ensures
        r == doc_weight_ceiling(),
{
    Binary32::from_bits(0x400c_ccd1)
}

/// Corpus statistics of the virtual field that all target columns make up.
pub struct CombinedFieldsBM25Scorer {
    /// The mean blended document length.
    pub avg_doc_length: Binary32,
    /// The blended inverse document frequency of each query term.
    pub query_weights: Vec<(String, Binary32)>,
}

/// The weight listed for a term, zero if none is; the first one counts.
pub open spec fn listed_weight(weights: Seq<(String, Binary32)>, term: Seq<char>) -> Binary32
    decreases weights.len(),
{
    if weights.len() == 0 {
        Binary32::zero_spec()
    } else if weights.first().0@ == term {
        weights.first().1
    } else {
        listed_weight(weights.drop_first(), term)
    }
}

/// `x` brought into the range from zero to `high`; zero where it is not a number.
pub open spec fn clamped(x: Binary32, high: Binary32) -> Binary32 {
    if !Binary32::zero_spec().before(x) {
        Binary32::zero_spec()
    } else if high.before(x) {
        high
    } else {
        x
    }
}

/// `K1 * (1 - B + B * dl / avg)`.
pub open spec fn length_norm(avg: Binary32, dl: Binary32) -> Binary32 {
    k1_spec().times(one_minus_b_spec().plus(b_spec().times(dl).over(avg)))
}

/// `(K1 + 1) * tf / (tf + norm)`, between zero and the ceiling; zero unless
/// `tf` is positive.
pub open spec fn bm25_weight(avg: Binary32, tf: Binary32, dl: Binary32) -> Binary32 {
    if !Binary32::zero_spec().before(tf) {
        Binary32::zero_spec()
    } else {
        clamped(
            saturation_spec().times(tf).over(tf.plus(length_norm(avg, dl))),
            doc_weight_ceiling(),
        )
    }
}

impl CombinedFieldsBM25Scorer {
    /// A scorer for the given mean length and query terms.
    pub fn new(avg_doc_length: Binary32, query_weights: Vec<(String, Binary32)>) -> (r: Self)
        ensures
            r.avg_doc_length == avg_doc_length,
            r.query_weights == query_weights,
    {
        CombinedFieldsBM25Scorer { avg_doc_length, query_weights }
    }

    /// The blended inverse document frequency of `term`.
    pub fn query_weight(&self, term: &str) -> (weight: Binary32)
        ensures
            weight == listed_weight(self.query_weights@, term@),
    {
        let wanted = term.to_owned();
        let mut i: usize = 0;
        proof {
            assert(self.query_weights@.skip(0) == self.query_weights@);
        }
        while i < self.query_weights.len()
            invariant
                i <= self.query_weights.len(),
                wanted@ == term@,
                listed_weight(self.query_weights@, term@) == listed_weight(
                    self.query_weights@.skip(i as int),
                    term@,
                ),
            decreases self.query_weights.len() - i,
        {
            proof {
                let rest = self.query_weights@.skip(i as int);
                assert(rest.first() == self.query_weights@[i as int]);
                assert(rest.drop_first() == self.query_weights@.skip(i + 1));
            }
            if self.query_weights[i].0 == wanted {
                return self.query_weights[i].1;
            }
            i = i + 1;
        }
        Binary32::zero()
    }

    /// What a blended term frequency counts for in a document of blended length `dl`.
    pub fn doc_weight(&self, tf: Binary32, dl: Binary32) -> (weight: Binary32)
        ensures
            weight == bm25_weight(self.avg_doc_length, tf, dl),
            weight.is_score(),
            weight.at_most(doc_weight_ceiling()),
    {
        let zero = Binary32::zero();
        if !zero.lt(tf) {
            return zero;
        }
        let b = Binary32::from_bits(0x3f40_0000);
        let one_minus_b = Binary32::from_bits(0x3e80_0000);
        let norm = k1().mul(one_minus_b.add(b.mul(dl).div(self.avg_doc_length)));
        let raw = Binary32::from_bits(0x400c_cccd).mul(tf).div(tf.add(norm));
        let high = bm25_doc_weight_upper_bound();
        if !zero.lt(raw) {
            zero
        } else if high.lt(raw) {
            high
        } else {
            raw
        }
    }
}

/// A document weight lies between zero and the ceiling, for every frequency and
/// length and whatever the mean length, and is zero for an absent term.
pub proof fn law_doc_weight_range(avg: Binary32, tf: Binary32, dl: Binary32)
    ensures
        bm25_weight(avg, tf, dl).is_score(),
        bm25_weight(avg, tf, dl).is_finite(),
        bm25_weight(avg, tf, dl).at_most(doc_weight_ceiling()),
        tf.at_most(Binary32::zero_spec()) ==> bm25_weight(avg, tf, dl) == Binary32::zero_spec(),
{
}

/// A term has the weight that is listed for it first, and none if none is.
pub proof fn law_first_listed_weight(weights: Seq<(String, Binary32)>, term: Seq<char>)
    ensures
        forall|i: int|
            0 <= i < weights.len() && (#[trigger] weights[i]).0@ == term && (forall|g: int|
                0 <= g < i ==> (#[trigger] weights[g]).0@ != term) ==> listed_weight(weights, term)
                == weights[i].1,
        (forall|i: int| 0 <= i < weights.len() ==> (#[trigger] weights[i]).0@ != term)
            ==> listed_weight(weights, term).bits == 0,
    decreases weights.len(),
{
    if weights.len() > 0 {
        let rest = weights.drop_first();
        law_first_listed_weight(rest, term);
        assert forall|i: int|
            0 <= i < weights.len() && (#[trigger] weights[i]).0@ == term && (forall|g: int|
                0 <= g < i ==> (#[trigger] weights[g]).0@ != term) implies listed_weight(
            weights,
            term,
        ) == weights[i].1 by {
            if i > 0 {
                assert(weights[0].0@ != term);
                assert(rest[i - 1] == weights[i]);
                assert forall|g: int| 0 <= g < i - 1 implies (#[trigger] rest[g]).0@ != term by {
                    assert(weights[g + 1].0@ != term);
                }
            }
        }
        if forall|i: int| 0 <= i < weights.len() ==> (#[trigger] weights[i]).0@ != term {
            assert(weights[0].0@ != term);
            assert forall|g: int| 0 <= g < rest.len() implies (#[trigger] rest[g]).0@ != term by {
                assert(weights[g + 1].0@ != term);
            }
        }
    }
}

/// A document weight comes out of one rounded step after the other, in this order
/// and with `K1 = 1.2`, `K1 + 1 = 2.2`, `B = 0.75` and `1 - B = 0.25` to 24 bits,
/// and only what lies above the largest weight or is not positive is cut off.
pub proof fn law_doc_weight_steps(avg: Binary32, tf: Binary32, dl: Binary32)
    requires
        Binary32::zero_spec().before(tf),
    ensures
        ({
            let share = (Binary32 { bits: 0x3f40_0000 }).times(dl).over(avg);
            let norm = (Binary32 { bits: 0x3f99_999a }).times(
                (Binary32 { bits: 0x3e80_0000 }).plus(share),
            );
            let raw = (Binary32 { bits: 0x400c_cccd }).times(tf).over(tf.plus(norm));
            let weight = bm25_weight(avg, tf, dl);
            &&& 0 < raw.bits <= 0x400c_ccd1 ==> weight == raw
            &&& 0x400c_ccd1 < raw.bits <= 0x7f80_0000 ==> weight.bits == 0x400c_ccd1
            &&& raw.bits == 0 || raw.bits > 0x7f80_0000 ==> weight.bits == 0
        }),
{
}

} // verus!
