//! Whole numbers: where weights are whole, blended frequencies count exactly.
use crate::binary::lemma_formats;
use crate::binary::lemma_plus_score;
use crate::binary::lemma_times_finite;
use crate::binary::lemma_zero_plus;
use crate::binary::single;
use crate::binary::Binary32;
use crate::bounds::total;
use crate::cursor::term_of;
use crate::cursor::LoadedSource;
use crate::float::lemma_magnitude_zero;
use crate::float::lemma_nearest_zero;
use crate::meaning::frequency_at;
use crate::meaning::law_blended_frequency;
use crate::meaning::lists_occurrences;
use crate::meaning::occurs;
use crate::meaning::share;
use crate::rounding::lemma_round_code_exact;
use crate::rounding::lemma_round_dyadic;
use crate::rounding::lemma_units_strict;
use crate::rounding::round_code;
use crate::rounding::units;
use crate::weight::law_counts_are_nearest;
use crate::weight::worth;
use vstd::arithmetic::power2::lemma_pow2_adds;
use vstd::arithmetic::power2::lemma_pow2_pos;
use vstd::arithmetic::power2::pow2;
use vstd::prelude::*;

verus! {

/// Whether a number is the whole number `n`.
pub open spec fn is_whole(x: Binary32, n: nat) -> bool {
    x.is_score() && x.is_finite() && worth(x) == n * pow2(149)
}

/// Whole numbers of at most 24 bits are there.
proof fn lemma_whole_code(n: nat)
    requires
        n < 0x100_0000,
    ensures
        ({
            let code = round_code(23, n * pow2(149), 1);
            &&& code < 0x7f80_0000
            &&& units(23, code) == n * pow2(149)
            &&& round_code(23, (n * pow2(149)) * pow2(149), pow2(149)) == code
        }),
{
    vstd::arithmetic::power2::lemma2_to64();
    assert(pow2(23 + 1) == 0x100_0000);
    lemma_round_dyadic(23, n, 149);
    let code = round_code(23, n * pow2(149), 1);
    lemma_pow2_pos(149);
    lemma_round_code_exact(23, code, pow2(149));
    if code >= 0x7f80_0000 {
        lemma_pow2_adds(23, 254);
        lemma_pow2_adds(24, 149);
        lemma_pow2_adds(104, 173);
        lemma_pow2_pos(173);
        lemma_pow2_pos(104);
        assert(units(23, 0x7f80_0000) == pow2(277));
        if code > 0x7f80_0000 {
            lemma_units_strict(23, 0x7f80_0000, code);
        }
        assert(n * pow2(149) < pow2(173)) by (nonlinear_arith)
            requires
                n < 0x100_0000,
                pow2(173) == 0x100_0000 * pow2(149),
                pow2(149) > 0,
        ;
        assert(pow2(104) * pow2(173) >= pow2(173)) by (nonlinear_arith)
            requires
                pow2(104) >= 1,
                pow2(173) > 0,
        ;
    }
}

/// Whole numbers of at most 24 bits multiply exactly.
proof fn lemma_whole_product(x: Binary32, w: nat, count: u32)
    requires
        is_whole(x, w),
        w * count < 0x100_0000,
    ensures
        is_whole(x.times(Binary32::of_count(count)), (w * count) as nat),
{
    reveal(Binary32::times);
    reveal(Binary32::of_count);
    lemma_formats();
    let s = pow2(149);
    lemma_pow2_pos(149);
    let c = Binary32::of_count(count);
    if w == 0 {
        assert(0 * s == 0);
        assert(worth(x) * worth(c) == 0) by (nonlinear_arith)
            requires
                worth(x) == 0,
        ;
        lemma_nearest_zero(single(), s);
        lemma_magnitude_zero(single(), 0);
        assert(c.is_finite()) by {
            law_counts_are_nearest(count, x);
        }
        assert(0 * count == 0);
    } else {
        assert(count < 0x100_0000) by (nonlinear_arith)
            requires
                w * count < 0x100_0000,
                w >= 1,
        ;
        lemma_whole_code(count as nat);
        lemma_whole_code((w * count) as nat);
        assert((w * s) * (count as nat * s) == ((w * count) as nat * s) * s) by (nonlinear_arith);
    }
}

/// Whole numbers add exactly as long as their sum has at most 24 bits.
proof fn lemma_whole_sum(x: Binary32, a: nat, y: Binary32, b: nat)
    requires
        is_whole(x, a),
        is_whole(y, b),
        a + b < 0x100_0000,
    ensures
        is_whole(x.plus(y), a + b),
{
    lemma_formats();
    lemma_plus_score(x, y);
    lemma_whole_code(a + b);
    assert((a + b) * pow2(149) == a * pow2(149) + b * pow2(149)) by (nonlinear_arith);
}

/// The sum, over some entries, of whole weight times frequency.
pub open spec fn count_sum(
    sources: Seq<LoadedSource>,
    weights: Seq<nat>,
    all: Seq<(int, int)>,
) -> nat
    decreases all.len(),
{
    if all.len() == 0 {
        0
    } else {
        let o = all.last();
        count_sum(sources, weights, all.drop_last()) + weights[o.0] * frequency_at(
            *sources[o.0].posting,
            o.1,
        ) as nat
    }
}

proof fn lemma_count_total(sources: Seq<LoadedSource>, weights: Seq<nat>, all: Seq<(int, int)>)
    requires
        forall|j: int|
            0 <= j < all.len() ==> is_whole(
                sources[(#[trigger] all[j]).0].weight,
                weights[all[j].0],
            ),
        count_sum(sources, weights, all) < 0x100_0000,
    ensures
        is_whole(
            total(Seq::new(all.len(), |j: int| share(sources, all[j]))),
            count_sum(sources, weights, all),
        ),
    decreases all.len(),
{
    let shares = Seq::new(all.len(), |j: int| share(sources, all[j]));
    if all.len() == 0 {
        lemma_magnitude_zero(single(), 0);
        assert(0 * pow2(149) == 0);
    } else {
        let init = all.drop_last();
        let o = all.last();
        assert(all[all.len() - 1] == o);
        let f = frequency_at(*sources[o.0].posting, o.1);
        assert forall|j: int| 0 <= j < init.len() implies is_whole(
            sources[(#[trigger] init[j]).0].weight,
            weights[init[j].0],
        ) by {
            assert(init[j] == all[j]);
        }
        assert(weights[o.0] * f >= 0) by (nonlinear_arith)
            requires
                weights[o.0] >= 0,
                f >= 0,
        ;
        lemma_count_total(sources, weights, init);
        lemma_whole_product(sources[o.0].weight, weights[o.0], f);
        assert(shares.drop_last() =~= Seq::new(init.len(), |j: int| share(sources, init[j])));
        lemma_whole_sum(
            total(shares.drop_last()),
            count_sum(sources, weights, init),
            shares.last(),
            weights[o.0] * f as nat,
        );
    }
}

/// Where the weights are whole numbers, a blended frequency below `2^24` is the
/// whole number that comes out when weight times frequency is added up over all
/// entries that stand for the row.
pub proof fn law_whole_frequencies_are_exact(
    idf: Binary32,
    sources: Seq<LoadedSource>,
    selected: Set<u64>,
    weights: Seq<nat>,
    row: u64,
    i: int,
    all: Seq<(int, int)>,
)
    requires
        forall|s: int|
            0 <= s < sources.len() ==> is_whole((#[trigger] sources[s]).weight, weights[s]),
        lists_occurrences(sources, selected, row, all),
        count_sum(sources, weights, all) < 0x100_0000,
        0 <= i < term_of(idf, sources, selected).postings.len(),
        term_of(idf, sources, selected).postings[i].0 == row,
    ensures
        is_whole(
            term_of(idf, sources, selected).postings[i].1,
            count_sum(sources, weights, all),
        ),
{
    let own = law_blended_frequency(idf, sources, selected, row);
    lemma_one_listing(sources, selected, row, own, all);
    assert forall|j: int| 0 <= j < all.len() implies is_whole(
        sources[(#[trigger] all[j]).0].weight,
        weights[all[j].0],
    ) by {
        assert(occurs(sources, selected, row, all[j]));
    }
    lemma_count_total(sources, weights, all);
}

/// There is one way to list the entries that stand for a row.
proof fn lemma_one_listing(
    sources: Seq<LoadedSource>,
    selected: Set<u64>,
    row: u64,
    a: Seq<(int, int)>,
    b: Seq<(int, int)>,
)
    requires
        lists_occurrences(sources, selected, row, a),
        lists_occurrences(sources, selected, row, b),
    ensures
        a == b,
{
    assert forall|i: int| 0 <= i < a.len() implies b.contains(#[trigger] a[i]) by {
        assert(occurs(sources, selected, row, a[i]));
    }
    assert forall|i: int| 0 <= i < b.len() implies a.contains(#[trigger] b[i]) by {
        assert(occurs(sources, selected, row, b[i]));
    }
    lemma_same_listing(a, b);
}

spec fn in_order(a: Seq<(int, int)>) -> bool {
    forall|i: int, j: int|
        0 <= i < j < a.len() ==> (#[trigger] a[i]).0 < (#[trigger] a[j]).0 || (a[i].0 == a[j].0
            && a[i].1 < a[j].1)
}

proof fn lemma_same_listing(a: Seq<(int, int)>, b: Seq<(int, int)>)
    requires
        in_order(a),
        in_order(b),
        forall|i: int| 0 <= i < a.len() ==> b.contains(#[trigger] a[i]),
        forall|i: int| 0 <= i < b.len() ==> a.contains(#[trigger] b[i]),
    ensures
        a == b,
    decreases a.len(),
{
    if a.len() == 0 || b.len() == 0 {
        if a.len() > 0 {
            assert(b.contains(a[0]));
        }
        if b.len() > 0 {
            assert(a.contains(b[0]));
        }
        assert(a =~= b);
    } else {
        let (x, y) = (a.len() - 1, b.len() - 1);
        assert(a[x] == b[y]) by {
            assert(b.contains(a[x]));
            assert(a.contains(b[y]));
            let j = choose|j: int| 0 <= j < b.len() && b[j] == a[x];
            let i = choose|i: int| 0 <= i < a.len() && a[i] == b[y];
            if j < y && i < x {
                assert(b[j].0 < b[y].0 || b[j].1 < b[y].1);
                assert(a[i].0 < a[x].0 || a[i].1 < a[x].1);
            }
        }
        let (a1, b1) = (a.drop_last(), b.drop_last());
        assert forall|i: int| 0 <= i < a1.len() implies b1.contains(#[trigger] a1[i]) by {
            assert(b.contains(a[i]));
            let j = choose|j: int| 0 <= j < b.len() && b[j] == a[i];
            assert(a[i].0 < a[x].0 || a[i].1 < a[x].1);
            assert(b1[j] == a1[i]);
        }
        assert forall|i: int| 0 <= i < b1.len() implies a1.contains(#[trigger] b1[i]) by {
            assert(a.contains(b[i]));
            let j = choose|j: int| 0 <= j < a.len() && a[j] == b[i];
            assert(b[i].0 < b[y].0 || b[i].1 < b[y].1);
            assert(a1[j] == b1[i]);
        }
        lemma_same_listing(a1, b1);
        assert(a =~= a1.push(a[x]));
        assert(b =~= b1.push(b[y]));
    }
}

/// A row that a single entry stands for has the weight of its source times its
/// frequency, whatever the frequency.
pub proof fn law_single_entry_frequency(
    idf: Binary32,
    sources: Seq<LoadedSource>,
    selected: Set<u64>,
    row: u64,
    o: (int, int),
    i: int,
)
    requires
        occurs(sources, selected, row, o),
        forall|p: (int, int)| #[trigger] occurs(sources, selected, row, p) ==> p == o,
        sources[o.0].weight.is_finite(),
        0 <= i < term_of(idf, sources, selected).postings.len(),
        term_of(idf, sources, selected).postings[i].0 == row,
    ensures
        ({
            let tf = term_of(idf, sources, selected).postings[i].1;
            let product = sources[o.0].weight.times(
                Binary32::of_count(frequency_at(*sources[o.0].posting, o.1)),
            );
            // A product that is negative zero counts as zero.
            tf == product || (product.bits == 0x8000_0000 && tf.bits == 0)
        }),
{
    let all = law_blended_frequency(idf, sources, selected, row);
    assert(all.contains(o));
    assert(all.len() == 1) by {
        if all.len() > 1 {
            assert(occurs(sources, selected, row, all[0]));
            assert(occurs(sources, selected, row, all[1]));
            assert(all[0].0 < all[1].0 || all[0].1 < all[1].1);
        }
    }
    assert(all[0] == o);
    let shares = Seq::new(all.len(), |j: int| share(sources, all[j]));
    assert(shares.drop_last().len() == 0);
    assert(total(shares) == Binary32::zero_spec().plus(shares[0])) by {
        assert(total(shares.drop_last()) == Binary32::zero_spec());
    }
    let f = frequency_at(*sources[o.0].posting, o.1);
    law_counts_are_nearest(f, Binary32::zero_spec());
    let c = Binary32::of_count(f);
    lemma_times_finite(sources[o.0].weight, c, c);
    lemma_zero_plus(shares[0]);
}

} // verus!
