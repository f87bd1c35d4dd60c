//! What holds of the threshold search and of the report as a whole.

use crate::eval::{
    abstained, abstained_right, answered, answered_wrong, area, aurc, by_confidence,
    coverage_step, escalated, inserted, kept_count, offset_beta, optimal_alpha, optimal_beta,
    report_on, right, risk, risk_step, share, tally, tolerable_up_to, viewed,
    wrong, SampleView, ScoredSample,
};
use crate::binary64::law_numbers_are_representable;
use crate::evaluator::positive_zero;
use crate::rounding::{
    distance, half_even, lemma_half_even_exact, lemma_nearest_error, lemma_nearest_exact,
    lemma_nearest_monotone, nearest, nearest_units, real_of, representable, Real64,
};
use vstd::arithmetic::div_mod::{
    lemma_div_is_ordered, lemma_fundamental_div_mod, lemma_fundamental_div_mod_converse,
};
use vstd::arithmetic::power2::{
    lemma2_to64, lemma2_to64_rest, lemma_pow2_adds, lemma_pow2_pos, lemma_pow2_strictly_increases,
    pow2,
};
use vstd::prelude::*;

verus! {

/// Has every sample a confidence that is a number?
pub open spec fn all_numbers(samples: Seq<SampleView>) -> bool {
    forall|i: int| 0 <= i < samples.len() ==> (#[trigger] samples[i]).confidence.is_number()
}

/// Is no sample more confident than one before it?
pub open spec fn descending(samples: Seq<SampleView>) -> bool {
    forall|i: int, j: int|
        0 <= i < j < samples.len() ==> !(#[trigger] samples[i]).confidence.lt(
            (#[trigger] samples[j]).confidence,
        )
}

/// The samples that are exactly as confident as `c`.
pub open spec fn tied(c: Real64) -> spec_fn(SampleView) -> bool {
    |s: SampleView| c.le(s.confidence) && s.confidence.le(c)
}

// ---------------------------------------------------------------------------
// Order
// ---------------------------------------------------------------------------

proof fn lemma_inserted_len(sorted: Seq<SampleView>, x: SampleView)
    ensures
        inserted(sorted, x).len() == sorted.len() + 1,
    decreases sorted.len(),
{
    if sorted.len() > 0 && sorted.last().confidence.lt(x.confidence) {
        lemma_inserted_len(sorted.drop_last(), x);
    }
}

/// Sorting neither loses nor adds a sample.
pub proof fn law_sorting_keeps_the_number(samples: Seq<SampleView>)
    ensures
        by_confidence(samples).len() == samples.len(),
    decreases samples.len(),
{
    if samples.len() > 0 {
        law_sorting_keeps_the_number(samples.drop_last());
        lemma_inserted_len(by_confidence(samples.drop_last()), samples.last());
    }
}

proof fn lemma_tally_push(
    samples: Seq<SampleView>,
    x: SampleView,
    has: spec_fn(SampleView) -> bool,
)
    ensures
        tally(samples.push(x), has) == tally(samples, has) + if has(x) {
            1nat
        } else {
            0nat
        },
{
    assert(samples.push(x).drop_last() =~= samples);
}

proof fn lemma_tally_inserted(
    sorted: Seq<SampleView>,
    x: SampleView,
    has: spec_fn(SampleView) -> bool,
)
    ensures
        tally(inserted(sorted, x), has) == tally(sorted, has) + if has(x) {
            1nat
        } else {
            0nat
        },
    decreases sorted.len(),
{
    if sorted.len() > 0 && sorted.last().confidence.lt(x.confidence) {
        lemma_tally_inserted(sorted.drop_last(), x, has);
        lemma_tally_push(inserted(sorted.drop_last(), x), sorted.last(), has);
    } else {
        lemma_tally_push(sorted, x, has);
    }
}

/// Sorting keeps the samples: as many have any property afterwards as before.
pub proof fn law_sorting_keeps_the_samples(
    samples: Seq<SampleView>,
    has: spec_fn(SampleView) -> bool,
)
    ensures
        tally(by_confidence(samples), has) == tally(samples, has),
    decreases samples.len(),
{
    if samples.len() > 0 {
        law_sorting_keeps_the_samples(samples.drop_last(), has);
        lemma_tally_inserted(by_confidence(samples.drop_last()), samples.last(), has);
    }
}

proof fn lemma_inserted_all(
    sorted: Seq<SampleView>,
    x: SampleView,
    has: spec_fn(SampleView) -> bool,
)
    requires
        forall|i: int| 0 <= i < sorted.len() ==> has(#[trigger] sorted[i]),
        has(x),
    ensures
        forall|i: int| 0 <= i < inserted(sorted, x).len() ==> has(#[trigger] inserted(sorted, x)[i]),
    decreases sorted.len(),
{
    if sorted.len() > 0 && sorted.last().confidence.lt(x.confidence) {
        assert forall|i: int| 0 <= i < sorted.drop_last().len() implies has(
            #[trigger] sorted.drop_last()[i],
        ) by {
            assert(sorted.drop_last()[i] == sorted[i]);
        }
        lemma_inserted_all(sorted.drop_last(), x, has);
        let front = inserted(sorted.drop_last(), x);
        assert forall|i: int| 0 <= i < inserted(sorted, x).len() implies has(
            #[trigger] inserted(sorted, x)[i],
        ) by {
            if i < front.len() {
                assert(inserted(sorted, x)[i] == front[i]);
            } else {
                assert(inserted(sorted, x)[i] == sorted[sorted.len() - 1]);
            }
        }
    }
}

proof fn lemma_inserted_descends(sorted: Seq<SampleView>, x: SampleView)
    requires
        descending(sorted),
        all_numbers(sorted),
        x.confidence.is_number(),
    ensures
        descending(inserted(sorted, x)),
        all_numbers(inserted(sorted, x)),
    decreases sorted.len(),
{
    lemma_inserted_all(sorted, x, |s: SampleView| s.confidence.is_number());
    let number = |s: SampleView| s.confidence.is_number();
    assert forall|i: int| 0 <= i < inserted(sorted, x).len() implies (#[trigger] inserted(
        sorted,
        x,
    )[i]).confidence.is_number() by {
        assert(number(inserted(sorted, x)[i]));
    }
    if sorted.len() > 0 && sorted.last().confidence.lt(x.confidence) {
        let rest = sorted.drop_last();
        let last = sorted.last();
        assert forall|i: int, j: int| 0 <= i < j < rest.len() implies !(
        #[trigger] rest[i]).confidence.lt((#[trigger] rest[j]).confidence) by {
            assert(rest[i] == sorted[i] && rest[j] == sorted[j]);
        }
        assert forall|i: int| 0 <= i < rest.len() implies (
        #[trigger] rest[i]).confidence.is_number() by {
            assert(rest[i] == sorted[i]);
        }
        lemma_inserted_descends(rest, x);
        let above = |s: SampleView| !s.confidence.lt(last.confidence);
        assert forall|i: int| 0 <= i < rest.len() implies above(#[trigger] rest[i]) by {
            assert(rest[i] == sorted[i]);
        }
        lemma_inserted_all(rest, x, above);
        let r = inserted(sorted, x);
        let front = inserted(rest, x);
        assert forall|i: int, j: int| 0 <= i < j < r.len() implies !(#[trigger] r[i]).confidence.lt(
            (#[trigger] r[j]).confidence,
        ) by {
            assert(r[i] == front[i]);
            if j < front.len() {
                assert(r[j] == front[j]);
            } else {
                assert(above(front[i]));
            }
        }
    } else {
        let r = sorted.push(x);
        assert forall|i: int, j: int| 0 <= i < j < r.len() implies !(#[trigger] r[i]).confidence.lt(
            (#[trigger] r[j]).confidence,
        ) by {
            assert(r[i] == sorted[i]);
            assert(sorted[i].confidence.is_number());
            if j < sorted.len() {
                assert(r[j] == sorted[j]);
            } else if i < sorted.len() - 1 {
                assert(!sorted[i].confidence.lt(sorted[sorted.len() - 1].confidence));
                assert(sorted[sorted.len() - 1].confidence.is_number());
            }
        }
    }
}

/// After sorting, no sample is more confident than one before it.
pub proof fn law_sorting_descends(samples: Seq<SampleView>)
    requires
        all_numbers(samples),
    ensures
        descending(by_confidence(samples)),
        all_numbers(by_confidence(samples)),
    decreases samples.len(),
{
    if samples.len() > 0 {
        let rest = samples.drop_last();
        assert forall|i: int| 0 <= i < rest.len() implies (
        #[trigger] rest[i]).confidence.is_number() by {
            assert(rest[i] == samples[i]);
        }
        law_sorting_descends(rest);
        assert(samples[samples.len() - 1].confidence.is_number());
        lemma_inserted_descends(by_confidence(rest), samples.last());
    }
}

/// The samples with a property, in order.
pub open spec fn those(samples: Seq<SampleView>, has: spec_fn(SampleView) -> bool) -> Seq<
    SampleView,
>
    decreases samples.len(),
{
    if samples.len() == 0 {
        samples
    } else if has(samples.last()) {
        those(samples.drop_last(), has).push(samples.last())
    } else {
        those(samples.drop_last(), has)
    }
}

proof fn lemma_those_push(samples: Seq<SampleView>, x: SampleView, has: spec_fn(SampleView) -> bool)
    ensures
        those(samples.push(x), has) == if has(x) {
            those(samples, has).push(x)
        } else {
            those(samples, has)
        },
{
    assert(samples.push(x).drop_last() =~= samples);
}

proof fn lemma_those_inserted(sorted: Seq<SampleView>, x: SampleView, c: Real64)
    ensures
        those(inserted(sorted, x), tied(c)) == those(sorted.push(x), tied(c)),
    decreases sorted.len(),
{
    let has = tied(c);
    lemma_those_push(sorted, x, has);
    if sorted.len() > 0 && sorted.last().confidence.lt(x.confidence) {
        let rest = sorted.drop_last();
        lemma_those_inserted(rest, x, c);
        lemma_those_push(rest, x, has);
        lemma_those_push(inserted(rest, x), sorted.last(), has);
        assert(!(has(x) && has(sorted.last())));
    }
}

/// Sorting is stable: equally confident samples keep their order.
pub proof fn law_sorting_is_stable(samples: Seq<SampleView>, c: Real64)
    ensures
        those(by_confidence(samples), tied(c)) == those(samples, tied(c)),
    decreases samples.len(),
{
    if samples.len() > 0 {
        let rest = samples.drop_last();
        law_sorting_is_stable(rest, c);
        lemma_those_inserted(by_confidence(rest), samples.last(), c);
        lemma_those_push(by_confidence(rest), samples.last(), tied(c));
    }
}

// ---------------------------------------------------------------------------
// Counting
// ---------------------------------------------------------------------------

proof fn lemma_tally_bound(samples: Seq<SampleView>, has: spec_fn(SampleView) -> bool)
    ensures
        tally(samples, has) <= samples.len(),
    decreases samples.len(),
{
    if samples.len() > 0 {
        lemma_tally_bound(samples.drop_last(), has);
    }
}

proof fn lemma_tally_part(
    samples: Seq<SampleView>,
    part: spec_fn(SampleView) -> bool,
    whole: spec_fn(SampleView) -> bool,
)
    requires
        forall|s: SampleView| #[trigger] part(s) ==> whole(s),
    ensures
        tally(samples, part) <= tally(samples, whole),
    decreases samples.len(),
{
    if samples.len() > 0 {
        lemma_tally_part(samples.drop_last(), part, whole);
    }
}

proof fn lemma_tally_split(samples: Seq<SampleView>, k: int, has: spec_fn(SampleView) -> bool)
    requires
        0 <= k <= samples.len(),
    ensures
        tally(samples, has) == tally(samples.take(k), has) + tally(samples.skip(k), has),
    decreases samples.len(),
{
    if k == samples.len() {
        assert(samples.take(k) =~= samples);
    } else {
        let rest = samples.drop_last();
        lemma_tally_split(rest, k, has);
        assert(samples.skip(k).drop_last() =~= rest.skip(k));
        assert(samples.take(k) =~= rest.take(k));
    }
}

proof fn lemma_tally_agrees(
    samples: Seq<SampleView>,
    a: spec_fn(SampleView) -> bool,
    b: spec_fn(SampleView) -> bool,
)
    requires
        forall|i: int| 0 <= i < samples.len() ==> a(#[trigger] samples[i]) == b(samples[i]),
    ensures
        tally(samples, a) == tally(samples, b),
    decreases samples.len(),
{
    if samples.len() > 0 {
        let rest = samples.drop_last();
        assert forall|i: int| 0 <= i < rest.len() implies a(#[trigger] rest[i]) == b(rest[i]) by {
            assert(rest[i] == samples[i]);
        }
        lemma_tally_agrees(rest, a, b);
        assert(samples.last() == samples[samples.len() - 1]);
    }
}

proof fn lemma_tally_all(samples: Seq<SampleView>, has: spec_fn(SampleView) -> bool)
    requires
        forall|i: int| 0 <= i < samples.len() ==> has(#[trigger] samples[i]),
    ensures
        tally(samples, has) == samples.len(),
    decreases samples.len(),
{
    if samples.len() > 0 {
        let rest = samples.drop_last();
        assert forall|i: int| 0 <= i < rest.len() implies has(#[trigger] rest[i]) by {
            assert(rest[i] == samples[i]);
        }
        lemma_tally_all(rest, has);
        assert(samples.last() == samples[samples.len() - 1]);
    }
}

proof fn lemma_tally_none(samples: Seq<SampleView>, has: spec_fn(SampleView) -> bool)
    requires
        forall|i: int| 0 <= i < samples.len() ==> !(has(#[trigger] samples[i])),
    ensures
        tally(samples, has) == 0,
    decreases samples.len(),
{
    if samples.len() > 0 {
        let rest = samples.drop_last();
        assert forall|i: int| 0 <= i < rest.len() implies !(has(#[trigger] rest[i])) by {
            assert(rest[i] == samples[i]);
        }
        lemma_tally_none(rest, has);
        assert(samples.last() == samples[samples.len() - 1]);
    }
}

/// Every sample is right or wrong.
pub proof fn law_right_or_wrong(samples: Seq<SampleView>)
    ensures
        tally(samples, right()) + tally(samples, wrong()) == samples.len(),
    decreases samples.len(),
{
    if samples.len() > 0 {
        law_right_or_wrong(samples.drop_last());
    }
}

/// Every sample is answered, escalated or abstained on, and only one of these.
pub proof fn law_one_outcome_each(samples: Seq<SampleView>, alpha: Real64, beta: Real64)
    requires
        all_numbers(samples),
        beta.le(alpha),
    ensures
        tally(samples, answered(alpha)) + tally(samples, escalated(alpha, beta)) + tally(
            samples,
            abstained(beta),
        ) == samples.len(),
    decreases samples.len(),
{
    if samples.len() > 0 {
        let rest = samples.drop_last();
        assert forall|i: int| 0 <= i < rest.len() implies (
        #[trigger] rest[i]).confidence.is_number() by {
            assert(rest[i] == samples[i]);
        }
        law_one_outcome_each(rest, alpha, beta);
        assert(samples[samples.len() - 1].confidence.is_number());
    }
}

// ---------------------------------------------------------------------------
// Shares
// ---------------------------------------------------------------------------

/// The number of units of one.
spec fn one_units() -> nat {
    pow2(1074)
}

proof fn lemma_one_units()
    ensures
        one_units() >= 0x4000_0000_0000_0000_0000_0000_0000_0000,
        one_units() * 0x100_0000_0000_0000_0000 < pow2(2098),
{
    lemma2_to64();
    lemma2_to64_rest();
    lemma_pow2_adds(64, 62);
    lemma_pow2_strictly_increases(126, 1074);
    assert(0x1_0000_0000_0000_0000 * 0x4000_0000_0000_0000
        == 0x4000_0000_0000_0000_0000_0000_0000_0000nat) by (nonlinear_arith);
    lemma_pow2_adds(64, 8);
    assert(0x1_0000_0000_0000_0000 * 0x100 == 0x100_0000_0000_0000_0000nat) by (nonlinear_arith);
    lemma_pow2_adds(1074, 72);
    lemma_pow2_strictly_increases(1146, 2098);
}

/// The units of a natural number: monotone, positive for a positive one, and far
/// from overflow.
proof fn lemma_real_of(n: nat)
    requires
        n <= usize::MAX,
    ensures
        real_of(n) == (Real64::Finite {
            negative: false,
            units: nearest_units(n * one_units(), 1),
        }),
        n >= 1 ==> nearest_units(n * one_units(), 1) >= one_units(),
        nearest_units(n * one_units(), 1) <= 0x1_0000_0000_0000_0000 * one_units(),
{
    let u = one_units();
    lemma_one_units();
    let top: nat = 0x1_0000_0000_0000_0000;
    assert(n * u <= top * u) by (nonlinear_arith)
        requires
            n <= top,
    ;
    lemma_nearest_monotone(n * u, top * u, 1);
    lemma_pow2_adds(64, 1074);
    lemma2_to64();
    lemma_exact_units(1, 1138);
    assert(top * u == 1 * pow2(1138));
    if n >= 1 {
        assert(n * u >= u) by (nonlinear_arith)
            requires
                n >= 1,
        ;
        lemma_nearest_monotone(u, n * u, 1);
        lemma_exact_units(1, 1074);
    }
}

proof fn lemma_exact_units(m: nat, e: nat)
    requires
        m < 0x20_0000_0000_0000,
    ensures
        nearest_units(m * pow2(e), 1) == m * pow2(e),
{
    lemma_nearest_exact(m, e, 1);
    assert(m * pow2(e) * 1 == m * pow2(e)) by (nonlinear_arith);
}

/// A number of samples that is below `2^53` is a binary64 number itself.
proof fn lemma_small_real_of(n: nat)
    requires
        n < 0x20_0000_0000_0000,
    ensures
        real_of(n) == (Real64::Finite { negative: false, units: n * one_units() }),
{
    lemma_one_units();
    lemma_exact_units(n, 1074);
    let u = one_units();
    assert(n * u <= 0x20_0000_0000_0000 * u) by (nonlinear_arith)
        requires
            n < 0x20_0000_0000_0000,
    ;
}

/// The share of a part in its whole lies between zero and one.
pub proof fn law_share_is_a_fraction(part: nat, whole: nat)
    requires
        part <= whole <= usize::MAX,
    ensures
        positive_zero().le(share(part, whole)),
        share(part, whole).le(real_of(1)),
        share(part, whole) is Finite,
        !share(part, whole).is_negative(),
{
    let u = one_units();
    lemma_one_units();
    lemma_small_real_of(1);
    if whole > 0 {
        lemma_real_of(part);
        lemma_real_of(whole);
        let a = nearest_units(part * u, 1);
        let b = nearest_units(whole * u, 1);
        assert(part * u <= whole * u) by (nonlinear_arith)
            requires
                part <= whole,
        ;
        lemma_nearest_monotone(part * u, whole * u, 1);
        assert(a * u <= b * u) by (nonlinear_arith)
            requires
                a <= b,
        ;
        lemma_nearest_monotone(a * u, b * u, b);
        lemma_nearest_exact(1, 1074, b);
        assert(b * u == 1 * pow2(1074) * b) by (nonlinear_arith)
            requires
                u == pow2(1074),
        ;
        assert(nearest_units(a * u, b) <= u);
        assert(share(part, whole) == (Real64::Finite {
            negative: false,
            units: nearest_units(a * u, b),
        }));
    }
}

/// No part has no share.
proof fn lemma_no_share(whole: nat)
    requires
        whole <= usize::MAX,
    ensures
        share(0, whole) == positive_zero(),
{
    if whole > 0 {
        lemma_small_real_of(0);
        lemma_real_of(whole);
        lemma_one_units();
        let b = nearest_units(whole * one_units(), 1);
        lemma_half_even_exact(0, b);
        assert(0 * one_units() == 0);
        assert(0 < b * 0x20_0000_0000_0000) by (nonlinear_arith)
            requires
                b > 0,
        ;
        assert(nearest_units(0, b) == 0);
        lemma_pow2_pos(2098);
    }
}

/// Every rate of a report lies between zero and one.
pub proof fn law_rates_are_fractions(samples: Seq<SampleView>, target: Real64, dataset: Seq<char>)
    requires
        samples.len() <= usize::MAX,
    ensures
        ({
            let r = report_on(samples, target, dataset);
            let one = real_of(1);
            &&& positive_zero().le(r.accuracy) && r.accuracy.le(one)
            &&& positive_zero().le(r.coverage) && r.coverage.le(one)
            &&& positive_zero().le(r.risk) && r.risk.le(one)
            &&& positive_zero().le(r.false_accept_rate) && r.false_accept_rate.le(one)
            &&& positive_zero().le(r.false_abstain_rate) && r.false_abstain_rate.le(one)
            &&& positive_zero().le(r.abstain_rate) && r.abstain_rate.le(one)
            &&& positive_zero().le(r.escalation_rate) && r.escalation_rate.le(one)
        }),
{
    let sorted = by_confidence(samples);
    law_sorting_keeps_the_number(samples);
    let n = sorted.len();
    let alpha = optimal_alpha(sorted, target);
    let beta = optimal_beta(sorted, target, alpha);
    lemma_tally_bound(sorted, right());
    lemma_tally_bound(sorted, answered(alpha));
    lemma_tally_bound(sorted, abstained(beta));
    lemma_tally_bound(sorted, escalated(alpha, beta));
    lemma_tally_part(sorted, answered_wrong(alpha), answered(alpha));
    lemma_tally_part(sorted, abstained_right(beta), abstained(beta));
    law_share_is_a_fraction(tally(sorted, right()), n);
    law_share_is_a_fraction(tally(sorted, answered(alpha)), n);
    law_share_is_a_fraction(tally(sorted, abstained(beta)), n);
    law_share_is_a_fraction(tally(sorted, escalated(alpha, beta)), n);
    law_share_is_a_fraction(tally(sorted, answered_wrong(alpha)), tally(sorted, answered(alpha)));
    law_share_is_a_fraction(tally(sorted, abstained_right(beta)), tally(sorted, abstained(beta)));
}

// ---------------------------------------------------------------------------
// Coverage
// ---------------------------------------------------------------------------

/// As many samples as every coverage of a part of them is exact for. Above
/// `2^53` not even a number of samples is always a binary64 number.
pub open spec fn most_samples() -> nat {
    0x7_ffff_ffff_ffff
}

/// A positive coverage of some samples keeps at least one and at most all.
pub proof fn law_coverage_keeps_some(n: nat, coverage: Real64)
    requires
        n > 0,
    ensures
        1 <= kept_count(n, coverage) <= n,
{
}

/// The units of a share, and how far they are off: by one part in `2^53` at most.
proof fn lemma_share_error(k: nat, n: nat)
    requires
        k <= n,
        1 <= n <= most_samples(),
        n <= usize::MAX,
    ensures
        is_amount(share(k, n)),
        share(k, n)->units <= one_units(),
        0x20_0000_0000_0000 * distance(share(k, n)->units * n, k * one_units()) <= k * one_units(),
{
    let u = one_units();
    lemma_one_units();
    lemma_small_real_of(1);
    lemma_small_real_of(k);
    lemma_small_real_of(n);
    law_share_is_a_fraction(k, n);
    let p = (k * u) * u;
    let q = n * u;
    let c = nearest_units(p, q);
    assert(q > 0) by (nonlinear_arith)
        requires
            q == n * u,
            n >= 1,
            u >= 1,
    ;
    if k == 0 {
        lemma_no_share(n);
        assert(0 * u == 0);
        assert(0 * n == 0);
    } else {
        assert(p >= q * 0x10_0000_0000_0000) by (nonlinear_arith)
            requires
                p == (k * u) * u,
                q == n * u,
                k >= 1,
                n <= 0x7_ffff_ffff_ffff,
                u >= 0x4000_0000_0000_0000_0000_0000_0000,
        ;
        lemma_nearest_error(p, q);
        let ku = k * u;
        let cn = c * n;
        assert(c * q == cn * u) by (nonlinear_arith)
            requires
                q == n * u,
                cn == c * n,
        ;
        lemma_distance_scales(cn, ku, u);
        let d = distance(cn, ku);
        assert(0x20_0000_0000_0000 * d <= ku) by (nonlinear_arith)
            requires
                0x20_0000_0000_0000 * (d * u) <= ku * u,
                u >= 1,
        ;
        lemma_share_below_one(k, n);
        assert(share(k, n)->units == c);
    }
}

/// The coverage that `k` of `n` samples make keeps exactly those `k`.
pub proof fn law_coverage_of_count(n: nat, k: nat)
    requires
        1 <= k <= n <= most_samples(),
        n <= usize::MAX,
    ensures
        kept_count(n, real_of(k).over(real_of(n))) == k,
{
    let u = one_units();
    lemma_one_units();
    lemma_small_real_of(k);
    lemma_small_real_of(n);
    let big: nat = 0x20_0000_0000_0000;
    assert(n * u > 0) by (nonlinear_arith)
        requires
            n >= 1,
            u >= 1,
    ;
    // The quotient.
    lemma_share_error(k, n);
    let c = share(k, n)->units;
    let ku = k * u;
    let cn = c * n;
    // The product.
    let w = nearest_units(c * (n * u), u);
    assert(c * (n * u) == cn * u) by (nonlinear_arith)
        requires
            cn == c * n,
    ;
    assert(ku >= u) by (nonlinear_arith)
        requires
            ku == k * u,
            k >= 1,
    ;
    assert(2 * cn >= ku);
    assert(cn * u >= u * 0x10_0000_0000_0000) by (nonlinear_arith)
        requires
            cn >= 0x10_0000_0000_0000,
            u >= 1,
    ;
    lemma_nearest_error(cn * u, u);
    lemma_distance_scales(w, cn, u);
    let e = distance(w, cn);
    assert(big * e <= cn) by (nonlinear_arith)
        requires
            big * (e * u) <= cn * u,
            u >= 1,
    ;
    // Both errors together are less than half a sample.
    assert(4 * ku + 4 * u <= big * u) by (nonlinear_arith)
        requires
            ku == k * u,
            k <= 0x7_ffff_ffff_ffff,
            big == 0x20_0000_0000_0000,
    ;
    assert(2 * w < 2 * ku + u);
    assert(2 * w + u > 2 * ku);
    let r = (2 * w + u) as nat;
    assert(r / (2 * u) == k) by {
        assert(k * (2 * u) == 2 * ku) by (nonlinear_arith)
            requires
                ku == k * u,
        ;
        lemma_fundamental_div_mod_converse(
            r as int,
            (2 * u) as int,
            k as int,
            (r - k * (2 * u)) as int,
        );
    }
    assert(w < pow2(2098)) by {
        assert(ku <= 0x7_ffff_ffff_ffff * u) by (nonlinear_arith)
            requires
                ku == k * u,
                k <= 0x7_ffff_ffff_ffff,
        ;
    }
}

proof fn lemma_distance_scales(a: nat, b: nat, u: nat)
    ensures
        distance(a * u, b * u) == distance(a, b) * u,
{
    if a <= b {
        assert(b * u - a * u == (b - a) * u) by (nonlinear_arith);
        assert(a * u <= b * u) by (nonlinear_arith)
            requires
                a <= b,
        ;
    } else {
        assert(a * u - b * u == (a - b) * u) by (nonlinear_arith);
        assert(a * u >= b * u) by (nonlinear_arith)
            requires
                a >= b,
        ;
        if a * u == b * u {
            assert((a - b) * u == 0);
        }
    }
}

/// A quotient of two numbers of samples is at most one.
proof fn lemma_share_below_one(k: nat, n: nat)
    requires
        1 <= k <= n < 0x20_0000_0000_0000,
    ensures
        nearest_units((k * one_units()) * one_units(), n * one_units()) <= one_units(),
{
    let u = one_units();
    lemma_one_units();
    let q = n * u;
    assert(q > 0) by (nonlinear_arith)
        requires
            q == n * u,
            n >= 1,
            u >= 1,
    ;
    assert((k * u) * u <= q * u) by (nonlinear_arith)
        requires
            q == n * u,
            k <= n,
    ;
    lemma_nearest_monotone((k * u) * u, q * u, q);
    lemma_nearest_exact(1, 1074, q);
    assert(q * u == 1 * pow2(1074) * q) by (nonlinear_arith)
        requires
            u == pow2(1074),
    ;
}

/// A greater coverage keeps no fewer samples.
pub proof fn law_more_coverage_keeps_more(n: nat, a: Real64, b: Real64)
    requires
        0 < n <= usize::MAX,
        a.le(b),
    ensures
        kept_count(n, a) <= kept_count(n, b),
{
    lemma_real_of(n);
    lemma_one_units();
    let u = one_units();
    let m = nearest_units(n * u, 1);
    if a is Finite && b is Finite && !a.is_negative() && !b.is_negative() {
        let (x, y) = (a->units, b->units);
        assert(x * m <= y * m) by (nonlinear_arith)
            requires
                x <= y,
        ;
        lemma_nearest_monotone(x * m, y * m, u);
        let (v, w) = (nearest_units(x * m, u), nearest_units(y * m, u));
        lemma_div_is_ordered((2 * v + u) as int, (2 * w + u) as int, (2 * u) as int);
    } else if a is Finite && !a.is_negative() && b is Finite {
        assert(a->units == 0);
        assert(0 * m == 0);
        lemma_half_even_exact(0, u);
        assert(0 < u * 0x20_0000_0000_0000) by (nonlinear_arith)
            requires
                u > 0,
        ;
        assert(nearest_units(0, u) == 0);
        lemma_fundamental_div_mod_converse(u as int, (2 * u) as int, 0, u as int);
    }
}

/// A greater target coverage never raises alpha.
pub proof fn law_more_coverage_lower_alpha(sorted: Seq<SampleView>, a: Real64, b: Real64)
    requires
        0 < sorted.len() <= usize::MAX,
        all_numbers(sorted),
        descending(sorted),
        a.le(b),
    ensures
        optimal_alpha(sorted, b).le(optimal_alpha(sorted, a)),
{
    let n = sorted.len();
    law_more_coverage_keeps_more(n, a, b);
    let i = kept_count(n, a) - 1;
    let j = kept_count(n, b) - 1;
    assert(sorted[i].confidence.is_number());
    assert(sorted[j].confidence.is_number());
    if i < j {
        assert(!sorted[i].confidence.lt(sorted[j].confidence));
    }
}

/// Full coverage keeps every sample: the risk there is the overall error rate.
pub proof fn law_full_coverage_risk(samples: Seq<SampleView>)
    requires
        samples.len() < 0x20_0000_0000_0000,
        samples.len() <= usize::MAX,
    ensures
        risk(samples, real_of(1)) == share(tally(samples, wrong()), samples.len()),
{
    let n = samples.len();
    if n > 0 {
        let u = one_units();
        lemma_one_units();
        lemma_small_real_of(1);
        lemma_small_real_of(n);
        assert(1 * u == u);
        lemma_nearest_exact(n, 1074, u);
        assert(u * (n * u) == n * pow2(1074) * u) by (nonlinear_arith)
            requires
                u == pow2(1074),
        ;
        let w = n * u;
        assert((2 * w + u) == n * (2 * u) + u) by (nonlinear_arith)
            requires
                w == n * u,
        ;
        lemma_fundamental_div_mod_converse((2 * w + u) as int, (2 * u) as int, n as int, u as int);
        assert(w <= 0x20_0000_0000_0000 * u) by (nonlinear_arith)
            requires
                w == n * u,
                n < 0x20_0000_0000_0000,
        ;
        assert(samples.take(n as int) =~= samples);
    }
}

// ---------------------------------------------------------------------------
// Thresholds
// ---------------------------------------------------------------------------

/// Alpha answers at least as many samples as the target coverage keeps, and
/// exactly as many unless the first of the others is as confident.
pub proof fn law_alpha_answers_the_target(sorted: Seq<SampleView>, target: Real64)
    requires
        sorted.len() > 0,
        all_numbers(sorted),
        descending(sorted),
    ensures
        ({
            let kept = kept_count(sorted.len(), target);
            let alpha = optimal_alpha(sorted, target);
            &&& tally(sorted, answered(alpha)) >= kept
            &&& kept == sorted.len() || sorted[kept as int].confidence.lt(alpha) ==> tally(
                sorted,
                answered(alpha),
            ) == kept
        }),
{
    let kept = kept_count(sorted.len(), target) as int;
    let alpha = optimal_alpha(sorted, target);
    lemma_tally_split(sorted, kept, answered(alpha));
    lemma_alpha_bounds(sorted, target);
    lemma_tally_all(sorted.take(kept), answered(alpha));
    if kept == sorted.len() || sorted[kept].confidence.lt(alpha) {
        lemma_tally_none(sorted.skip(kept), answered(alpha));
    }
}

proof fn lemma_alpha_bounds(sorted: Seq<SampleView>, target: Real64)
    requires
        sorted.len() > 0,
        all_numbers(sorted),
        descending(sorted),
    ensures
        ({
            let kept = kept_count(sorted.len(), target) as int;
            let alpha = optimal_alpha(sorted, target);
            let front = sorted.take(kept);
            let back = sorted.skip(kept);
            &&& alpha.is_number()
            &&& forall|i: int| 0 <= i < front.len() ==> answered(alpha)(#[trigger] front[i])
            &&& kept == sorted.len() || sorted[kept].confidence.lt(alpha) ==> forall|i: int|
                0 <= i < back.len() ==> !answered(alpha)(#[trigger] back[i])
        }),
{
    let kept = kept_count(sorted.len(), target) as int;
    let alpha = optimal_alpha(sorted, target);
    let front = sorted.take(kept);
    let back = sorted.skip(kept);
    assert(sorted[kept - 1].confidence.is_number());
    assert forall|i: int| 0 <= i < front.len() implies answered(alpha)(#[trigger] front[i]) by {
        assert(front[i] == sorted[i]);
        assert(sorted[i].confidence.is_number());
        if i < kept - 1 {
            assert(!sorted[i].confidence.lt(sorted[kept - 1].confidence));
        }
    }
    if kept == sorted.len() || sorted[kept].confidence.lt(alpha) {
        assert forall|i: int| 0 <= i < back.len() implies !answered(alpha)(#[trigger] back[i]) by {
            assert(back[i] == sorted[kept + i]);
            assert(sorted[kept + i].confidence.is_number());
            if i > 0 {
                assert(!sorted[kept].confidence.lt(sorted[kept + i].confidence));
            }
        }
    }
}

/// The risk at the target coverage is the false-accept rate at alpha, unless the
/// first sample that is not kept is as confident as the last that is.
pub proof fn law_risk_is_false_accept_rate(sorted: Seq<SampleView>, target: Real64)
    requires
        sorted.len() > 0,
        all_numbers(sorted),
        descending(sorted),
        kept_count(sorted.len(), target) == sorted.len() || sorted[kept_count(
            sorted.len(),
            target,
        ) as int].confidence.lt(optimal_alpha(sorted, target)),
    ensures
        risk(sorted, target) == share(
            tally(sorted, answered_wrong(optimal_alpha(sorted, target))),
            tally(sorted, answered(optimal_alpha(sorted, target))),
        ),
{
    let kept = kept_count(sorted.len(), target) as int;
    let alpha = optimal_alpha(sorted, target);
    law_alpha_answers_the_target(sorted, target);
    lemma_alpha_bounds(sorted, target);
    lemma_tally_split(sorted, kept, answered_wrong(alpha));
    let front = sorted.take(kept);
    let back = sorted.skip(kept);
    assert forall|i: int| 0 <= i < front.len() implies answered_wrong(alpha)(#[trigger] front[i])
        == wrong()(front[i]) by {
        assert(answered(alpha)(front[i]));
    }
    lemma_tally_agrees(front, answered_wrong(alpha), wrong());
    assert forall|i: int| 0 <= i < back.len() implies !answered_wrong(alpha)(
        #[trigger] back[i],
    ) by {
        assert(!answered(alpha)(back[i]));
    }
    lemma_tally_none(back, answered_wrong(alpha));
}

proof fn lemma_tolerable_at_least(sorted: Seq<SampleView>, target: Real64, k: nat, top: nat)
    requires
        1 <= k <= top,
        risk(sorted, real_of(k).over(real_of(sorted.len()))).le(
            risk(sorted, target).times(real_of(2)),
        ),
    ensures
        tolerable_up_to(sorted, target, top) matches Some(i) && k - 1 <= i < top,
    decreases top,
{
    if top > k && !risk(sorted, real_of(top).over(real_of(sorted.len()))).le(
        risk(sorted, target).times(real_of(2)),
    ) {
        lemma_tolerable_at_least(sorted, target, k, (top - 1) as nat);
    }
}

/// A share is at most twice itself.
proof fn lemma_share_doubles(part: nat, whole: nat)
    requires
        part <= whole <= usize::MAX,
    ensures
        share(part, whole).le(share(part, whole).times(real_of(2))),
{
    law_share_is_a_fraction(part, whole);
    lemma_small_real_of(2);
    lemma_small_real_of(1);
    lemma_one_units();
    let u = one_units();
    let a = share(part, whole)->units;
    let b = a * (2 * u);
    let w = nearest_units(b, u);
    assert(b == (2 * a) * u) by (nonlinear_arith)
        requires
            b == a * (2 * u),
    ;
    if 2 * a < 0x20_0000_0000_0000 {
        lemma_half_even_exact(2 * a, u);
        assert(b < u * 0x20_0000_0000_0000) by (nonlinear_arith)
            requires
                b == (2 * a) * u,
                2 * a < 0x20_0000_0000_0000,
                u > 0,
        ;
        assert(w == 2 * a);
    } else {
        assert(b >= u * 0x10_0000_0000_0000) by (nonlinear_arith)
            requires
                b == (2 * a) * u,
                2 * a >= 0x20_0000_0000_0000,
                u > 0,
        ;
        lemma_nearest_error(b, u);
        lemma_distance_scales(w, 2 * a, u);
        let d = distance(w, 2 * a);
        assert(0x20_0000_0000_0000 * d <= 2 * a) by (nonlinear_arith)
            requires
                0x20_0000_0000_0000 * (d * u) <= (2 * a) * u,
                u > 0,
        ;
    }
    assert(w >= a);
}

/// Less than a number is not more than it: subtracting 0.7 does not increase.
proof fn lemma_offset_below(alpha: Real64)
    requires
        alpha.is_number(),
        representable(alpha),
    ensures
        offset_beta(alpha).le(alpha),
{
    lemma_small_real_of(7);
    lemma_small_real_of(10);
    lemma_one_units();
    let u = one_units();
    let q = 10 * u;
    let d = nearest_units((7 * u) * u, q);
    lemma_share_below_one(7, 10);
    assert(d <= u);
    assert(real_of(7).over(real_of(10)) == (Real64::Finite { negative: false, units: d }));
    if alpha is Finite {
        let (m, e) = choose|m: nat, e: nat|
            m < 0x20_0000_0000_0000 && alpha->units == #[trigger] (m * pow2(e));
        lemma_exact_units(m, e);
        let a = alpha->units;
        let sum = alpha.signed() - d;
        if sum < 0 && alpha.signed() < 0 {
            lemma_nearest_monotone(a, (-sum) as nat, 1);
        } else if sum > 0 {
            lemma_nearest_monotone(sum as nat, a, 1);
        }
    }
}

proof fn lemma_beta_below_alpha(sorted: Seq<SampleView>, target: Real64)
    requires
        0 < sorted.len() <= most_samples(),
        sorted.len() <= usize::MAX,
        all_numbers(sorted),
        descending(sorted),
        forall|i: int| 0 <= i < sorted.len() ==> representable((#[trigger] sorted[i]).confidence),
    ensures
        optimal_beta(sorted, target, optimal_alpha(sorted, target)).le(
            optimal_alpha(sorted, target),
        ),
{
    let n = sorted.len();
    let kept = kept_count(n, target);
    let alpha = optimal_alpha(sorted, target);
    assert(sorted[kept - 1].confidence.is_number());
    assert(representable(sorted[kept - 1].confidence));
    if n >= 5 {
        law_coverage_of_count(n, kept);
        lemma_tally_bound(sorted.take(kept as int), wrong());
        lemma_share_doubles(tally(sorted.take(kept as int), wrong()), kept);
        lemma_tolerable_at_least(sorted, target, kept, n);
        let i = tolerable_up_to(sorted, target, n).unwrap() as int;
        assert(sorted[i].confidence.is_number());
        if i > kept - 1 {
            assert(!sorted[kept - 1].confidence.lt(sorted[i].confidence));
        }
    } else {
        lemma_offset_below(alpha);
    }
}

/// Beta is never above alpha, so that the three bands never overlap.
pub proof fn law_beta_is_at_most_alpha(samples: Seq<ScoredSample>, target: Real64)
    requires
        0 < samples.len() <= most_samples(),
        samples.len() <= usize::MAX,
        all_numbers(viewed(samples)),
    ensures
        ({
            let sorted = by_confidence(viewed(samples));
            let alpha = optimal_alpha(sorted, target);
            optimal_beta(sorted, target, alpha).le(alpha)
        }),
{
    let all = viewed(samples);
    law_sorting_keeps_the_number(all);
    law_sorting_descends(all);
    lemma_all_representable(samples);
    lemma_sorted_representable(all);
    lemma_beta_below_alpha(by_confidence(all), target);
}

proof fn lemma_all_representable(samples: Seq<ScoredSample>)
    ensures
        forall|i: int|
            0 <= i < viewed(samples).len() ==> representable(
                (#[trigger] viewed(samples)[i]).confidence,
            ),
{
    assert forall|i: int| 0 <= i < viewed(samples).len() implies representable(
        (#[trigger] viewed(samples)[i]).confidence,
    ) by {
        law_numbers_are_representable(samples[i].confidence);
    }
}

/// In a report every sample is counted as answered, escalated or abstained on,
/// once, and the rates are the shares of these counts.
pub proof fn law_report_counts_everything(
    scored: Seq<ScoredSample>,
    target: Real64,
    dataset: Seq<char>,
)
    requires
        0 < scored.len() <= most_samples(),
        scored.len() <= usize::MAX,
        all_numbers(viewed(scored)),
    ensures
        ({
            let samples = viewed(scored);
            let r = report_on(samples, target, dataset);
            &&& r.n == scored.len()
            &&& r.n_correct == tally(samples, right())
            &&& r.n_answered + r.n_escalated + r.n_abstained == r.n
            &&& r.coverage == share(r.n_answered, r.n)
            &&& r.abstain_rate == share(r.n_abstained, r.n)
            &&& r.escalation_rate == share(r.n_escalated, r.n)
            &&& r.n_answered == tally(samples, answered(r.optimal_alpha))
            &&& r.n_abstained == tally(samples, abstained(r.optimal_beta))
            &&& r.n_escalated == tally(samples, escalated(r.optimal_alpha, r.optimal_beta))
        }),
{
    let samples = viewed(scored);
    let sorted = by_confidence(samples);
    let alpha = optimal_alpha(sorted, target);
    let beta = optimal_beta(sorted, target, alpha);
    law_sorting_keeps_the_number(samples);
    law_sorting_descends(samples);
    law_beta_is_at_most_alpha(scored, target);
    law_one_outcome_each(sorted, alpha, beta);
    law_sorting_keeps_the_samples(samples, right());
    law_sorting_keeps_the_samples(samples, answered(alpha));
    law_sorting_keeps_the_samples(samples, abstained(beta));
    law_sorting_keeps_the_samples(samples, escalated(alpha, beta));
}

proof fn lemma_sorted_representable(samples: Seq<SampleView>)
    requires
        forall|i: int| 0 <= i < samples.len() ==> representable((#[trigger] samples[i]).confidence),
    ensures
        forall|i: int|
            0 <= i < by_confidence(samples).len() ==> representable(
                (#[trigger] by_confidence(samples)[i]).confidence,
            ),
    decreases samples.len(),
{
    if samples.len() > 0 {
        let rest = samples.drop_last();
        assert forall|i: int| 0 <= i < rest.len() implies representable(
            (#[trigger] rest[i]).confidence,
        ) by {
            assert(rest[i] == samples[i]);
        }
        lemma_sorted_representable(rest);
        assert(representable(samples[samples.len() - 1].confidence));
        let has = |s: SampleView| representable(s.confidence);
        let sorted = by_confidence(rest);
        assert forall|i: int| 0 <= i < sorted.len() implies has(#[trigger] sorted[i]) by {}
        lemma_inserted_all(sorted, samples.last(), has);
        assert forall|i: int| 0 <= i < by_confidence(samples).len() implies representable(
            (#[trigger] by_confidence(samples)[i]).confidence,
        ) by {
            assert(has(inserted(sorted, samples.last())[i]));
        }
    }
}

/// In a report the risk and the false-accept rate are the same thing.
pub proof fn law_reported_risk(samples: Seq<SampleView>, target: Real64, dataset: Seq<char>)
    ensures
        report_on(samples, target, dataset).risk == report_on(
            samples,
            target,
            dataset,
        ).false_accept_rate,
{
}

// ---------------------------------------------------------------------------
// The curve
// ---------------------------------------------------------------------------

/// Where no sample is wrong there is no risk at any coverage.
pub proof fn law_no_errors_no_risk(samples: Seq<SampleView>, coverage: Real64)
    requires
        samples.len() <= usize::MAX,
        forall|i: int| 0 <= i < samples.len() ==> (#[trigger] samples[i]).correct,
    ensures
        risk(samples, coverage) == positive_zero(),
{
    let kept = kept_count(samples.len(), coverage);
    let front = samples.take(kept as int);
    assert forall|i: int| 0 <= i < front.len() implies !wrong()(#[trigger] front[i]) by {
        assert(front[i] == samples[i]);
    }
    lemma_tally_none(front, wrong());
    lemma_no_share(kept);
}

/// A coverage of the curve is a fraction, and no smaller than the one before.
proof fn lemma_coverage_steps(i: nat, steps: nat)
    requires
        1 <= i <= steps <= usize::MAX,
    ensures
        ({
            let a = coverage_step((i - 1) as nat, steps);
            let b = coverage_step(i, steps);
            &&& a is Finite && !a.is_negative()
            &&& b is Finite && !b.is_negative()
            &&& b.minus(a) is Finite && !b.minus(a).is_negative()
        }),
{
    let u = one_units();
    lemma_one_units();
    let j = (i - 1) as nat;
    law_share_is_a_fraction(i, steps);
    law_share_is_a_fraction(j, steps);
    lemma_small_real_of(1);
    lemma_real_of(i);
    lemma_real_of(j);
    lemma_real_of(steps);
    let a = nearest_units(j * u, 1);
    let b = nearest_units(i * u, 1);
    let q = nearest_units(steps * u, 1);
    assert(j * u <= i * u) by (nonlinear_arith)
        requires
            j <= i,
    ;
    lemma_nearest_monotone(j * u, i * u, 1);
    assert(a * u <= b * u) by (nonlinear_arith)
        requires
            a <= b,
    ;
    lemma_nearest_monotone(a * u, b * u, q);
    lemma_no_share(steps);
    let before = coverage_step(j, steps);
    let after = coverage_step(i, steps);
    let width = (after.signed() - before.signed()) as nat;
    lemma_nearest_monotone(width, u, 1);
    lemma_exact_units(1, 1074);
    assert(1 * u == u);
}

/// A finite number with a clear sign bit.
spec fn is_amount(x: Real64) -> bool {
    x is Finite && !x.is_negative()
}

/// Half the sum of two fractions is a finite number that is not negative.
proof fn lemma_mean_of_fractions(x: Real64, y: Real64)
    requires
        is_amount(x),
        is_amount(y),
        x.le(real_of(1)),
        y.le(real_of(1)),
    ensures
        is_amount(x.plus(y).over(real_of(2))),
{
    let u = one_units();
    lemma_one_units();
    lemma_small_real_of(1);
    lemma_small_real_of(2);
    let sum = x->units + y->units;
    lemma_nearest_monotone(sum, 2 * u, 1);
    lemma_exact_units(2, 1074);
    assert(is_amount(x.plus(y)));
    assert(x.plus(y)->units <= 2 * u);
    let v = x.plus(y)->units;
    let q = 2 * u;
    assert(v * u <= q * u) by (nonlinear_arith)
        requires
            v <= q,
    ;
    lemma_nearest_monotone(v * u, q * u, q);
    lemma_nearest_exact(1, 1074, q);
    assert(q * u == 1 * pow2(1074) * q) by (nonlinear_arith)
        requires
            u == pow2(1074),
    ;
}

/// The area under the risk-coverage curve is a number that is not negative.
pub proof fn law_area_is_not_negative(samples: Seq<SampleView>, steps: nat)
    requires
        samples.len() <= usize::MAX,
        steps <= usize::MAX,
    ensures
        positive_zero().le(aurc(samples, steps)),
{
    if samples.len() > 0 {
        lemma_area_not_negative(samples, steps, steps);
    }
}

proof fn lemma_risk_is_a_fraction(samples: Seq<SampleView>, coverage: Real64)
    requires
        samples.len() <= usize::MAX,
    ensures
        is_amount(risk(samples, coverage)),
        risk(samples, coverage).le(real_of(1)),
{
    let kept = kept_count(samples.len(), coverage);
    lemma_tally_bound(samples.take(kept as int), wrong());
    law_share_is_a_fraction(tally(samples.take(kept as int), wrong()), kept);
}

proof fn lemma_area_not_negative(samples: Seq<SampleView>, i: nat, steps: nat)
    requires
        0 < samples.len() <= usize::MAX,
        i <= steps <= usize::MAX,
    ensures
        area(samples, i, steps).is_number(),
        !area(samples, i, steps).is_negative(),
    decreases i,
{
    if i > 0 {
        let j = (i - 1) as nat;
        lemma_area_not_negative(samples, j, steps);
        lemma_risk_is_a_fraction(samples, coverage_step(i, steps));
        lemma_risk_is_a_fraction(samples, coverage_step(j, steps));
        lemma_risk_is_a_fraction(samples, real_of(1).over(real_of(samples.len())));
        lemma_coverage_steps(i, steps);
        lemma_mean_of_fractions(risk_step(samples, i, steps), risk_step(samples, j, steps));
    }
}

/// Nothing over a positive number, and nothing times a fraction, is nothing.
proof fn lemma_nothing(width: Real64)
    requires
        width is Finite,
        !width.is_negative(),
    ensures
        positive_zero().plus(positive_zero()).over(real_of(2)) == positive_zero(),
        positive_zero().times(width) == positive_zero(),
        positive_zero().plus(positive_zero()) == positive_zero(),
{
    lemma_small_real_of(2);
    lemma_one_units();
    lemma_pow2_pos(2098);
    let u = one_units();
    assert(0 * u == 0);
    lemma_half_even_exact(0, 2 * u);
    lemma_half_even_exact(0, u);
    assert(0 < (2 * u) * 0x20_0000_0000_0000) by (nonlinear_arith)
        requires
            u > 0,
    ;
    assert(0 < u * 0x20_0000_0000_0000) by (nonlinear_arith)
        requires
            u > 0,
    ;
    assert(nearest_units(0, 2 * u) == 0);
    assert(nearest_units(0, u) == 0);
    assert(0 * width->units == 0);
}

/// Where no sample is wrong the area under the risk-coverage curve is zero.
pub proof fn law_no_errors_no_area(samples: Seq<SampleView>, steps: nat)
    requires
        samples.len() <= usize::MAX,
        steps <= usize::MAX,
        forall|i: int| 0 <= i < samples.len() ==> (#[trigger] samples[i]).correct,
    ensures
        aurc(samples, steps) == positive_zero(),
{
    if samples.len() > 0 {
        lemma_no_area(samples, steps, steps);
    }
}

proof fn lemma_no_area(samples: Seq<SampleView>, i: nat, steps: nat)
    requires
        0 < samples.len() <= usize::MAX,
        i <= steps <= usize::MAX,
        forall|k: int| 0 <= k < samples.len() ==> (#[trigger] samples[k]).correct,
    ensures
        area(samples, i, steps) == positive_zero(),
    decreases i,
{
    if i > 0 {
        let j = (i - 1) as nat;
        lemma_no_area(samples, j, steps);
        law_no_errors_no_risk(samples, coverage_step(i, steps));
        law_no_errors_no_risk(samples, coverage_step(j, steps));
        law_no_errors_no_risk(samples, real_of(1).over(real_of(samples.len())));
        lemma_coverage_steps(i, steps);
        lemma_nothing(coverage_step(i, steps).minus(coverage_step(j, steps)));
    }
}

/// A wrong sample more never lowers a risk.
proof fn lemma_share_monotone(a: nat, b: nat, whole: nat)
    requires
        a <= b <= whole <= usize::MAX,
    ensures
        share(a, whole).le(share(b, whole)),
{
    law_share_is_a_fraction(a, whole);
    law_share_is_a_fraction(b, whole);
    if whole > 0 {
        let u = one_units();
        lemma_one_units();
        lemma_real_of(a);
        lemma_real_of(b);
        lemma_real_of(whole);
        let q = nearest_units(whole * u, 1);
        let (x, y) = (nearest_units(a * u, 1), nearest_units(b * u, 1));
        assert(a * u <= b * u) by (nonlinear_arith)
            requires
                a <= b,
        ;
        lemma_nearest_monotone(a * u, b * u, 1);
        assert(x * u <= y * u) by (nonlinear_arith)
            requires
                x <= y,
        ;
        lemma_nearest_monotone(x * u, y * u, q);
    }
}

/// Does every right sample come before every wrong one?
pub open spec fn perfectly_ranked(samples: Seq<SampleView>) -> bool {
    forall|i: int, j: int|
        0 <= i < j < samples.len() && (#[trigger] samples[j]).correct ==> (
        #[trigger] samples[i]).correct
}

/// No order has fewer wrong samples among the first ones than a perfect ranking.
proof fn lemma_perfect_front(s: Seq<SampleView>, p: Seq<SampleView>, k: int)
    requires
        s.len() == p.len(),
        tally(s, wrong()) == tally(p, wrong()),
        perfectly_ranked(s),
        0 <= k <= s.len(),
    ensures
        tally(s.take(k), wrong()) <= tally(p.take(k), wrong()),
{
    law_right_or_wrong(s);
    law_right_or_wrong(p);
    law_right_or_wrong(s.take(k));
    law_right_or_wrong(p.take(k));
    lemma_tally_split(s, k, right());
    lemma_tally_split(p, k, right());
    let front = s.take(k);
    let back = s.skip(k);
    if exists|i: int| 0 <= i < front.len() && wrong()(#[trigger] front[i]) {
        let i = choose|i: int| 0 <= i < front.len() && wrong()(#[trigger] front[i]);
        assert(front[i] == s[i]);
        assert forall|j: int| 0 <= j < back.len() implies !(right()(#[trigger] back[j])) by {
            assert(back[j] == s[k + j]);
        }
        lemma_tally_none(back, right());
    } else {
        lemma_tally_none(front, wrong());
    }
}

/// Rounding to a number that is not negative keeps the order.
proof fn lemma_nearest_le(a: nat, b: nat, q: nat)
    requires
        a <= b,
        q > 0,
    ensures
        nearest(false, a, q).le(nearest(false, b, q)),
        nearest(false, b, q).is_number(),
        !nearest(false, a, q).is_negative(),
        !nearest(false, b, q).is_negative(),
{
    lemma_nearest_monotone(a, b, q);
}

/// Sums of numbers that are not negative keep the order.
proof fn lemma_plus_monotone(a: Real64, b: Real64, x: Real64, y: Real64)
    requires
        a.le(b),
        x.le(y),
        !a.is_negative(),
        !b.is_negative(),
        !x.is_negative(),
        !y.is_negative(),
    ensures
        a.plus(x).le(b.plus(y)),
        !a.plus(x).is_negative(),
        !b.plus(y).is_negative(),
{
    if b is Finite && y is Finite {
        lemma_nearest_le((a->units + x->units) as nat, (b->units + y->units) as nat, 1);
        assert(half_even(0, 1) == 0);
        lemma_pow2_pos(2098);
        assert(nearest(false, 0, 1) == positive_zero());
    }
}

/// The height of a trapezoid keeps the order of its sides, and its area that of
/// its height.
proof fn lemma_trapezoid_monotone(
    a: Real64,
    b: Real64,
    x: Real64,
    y: Real64,
    width: Real64,
)
    requires
        a.le(b),
        x.le(y),
        b.le(real_of(1)),
        y.le(real_of(1)),
        is_amount(a),
        is_amount(b),
        is_amount(x),
        is_amount(y),
        is_amount(width),
    ensures
        a.plus(x).over(real_of(2)).times(width).le(b.plus(y).over(real_of(2)).times(width)),
        !a.plus(x).over(real_of(2)).times(width).is_negative(),
        !b.plus(y).over(real_of(2)).times(width).is_negative(),
{
    let u = one_units();
    lemma_one_units();
    lemma_small_real_of(1);
    lemma_small_real_of(2);
    lemma_plus_monotone(a, b, x, y);
    lemma_mean_of_fractions(a, x);
    lemma_mean_of_fractions(b, y);
    let (s, t) = (a.plus(x), b.plus(y));
    assert(is_amount(t)) by {
        lemma_nearest_monotone((b->units + y->units) as nat, 2 * u, 1);
        lemma_exact_units(2, 1074);
    }
    assert(is_amount(s));
    let (m, n) = (s->units, t->units);
    assert(m * u <= n * u) by (nonlinear_arith)
        requires
            m <= n,
    ;
    lemma_nearest_le(m * u, n * u, 2 * u);
    let (g, h) = (s.over(real_of(2)), t.over(real_of(2)));
    let (v, w) = (g->units, h->units);
    let z = width->units;
    assert(v * z <= w * z) by (nonlinear_arith)
        requires
            v <= w,
    ;
    lemma_nearest_le(v * z, w * z, u);
}

/// A perfect ranking, in which every right sample comes before every wrong one,
/// has the least area of all orders of samples with as many wrong ones, and that
/// area is not negative.
pub proof fn law_perfect_ranking_has_least_area(
    s: Seq<SampleView>,
    p: Seq<SampleView>,
    steps: nat,
)
    requires
        s.len() == p.len() <= usize::MAX,
        tally(s, wrong()) == tally(p, wrong()),
        perfectly_ranked(s),
        steps <= usize::MAX,
    ensures
        positive_zero().le(aurc(s, steps)),
        aurc(s, steps).le(aurc(p, steps)),
{
    law_area_is_not_negative(s, steps);
    if s.len() > 0 {
        lemma_area_ordered(s, p, steps, steps);
    }
}

proof fn lemma_risk_ordered(s: Seq<SampleView>, p: Seq<SampleView>, coverage: Real64)
    requires
        s.len() == p.len() <= usize::MAX,
        tally(s, wrong()) == tally(p, wrong()),
        perfectly_ranked(s),
    ensures
        risk(s, coverage).le(risk(p, coverage)),
{
    let kept = kept_count(s.len(), coverage);
    lemma_perfect_front(s, p, kept as int);
    lemma_tally_bound(p.take(kept as int), wrong());
    lemma_share_monotone(
        tally(s.take(kept as int), wrong()),
        tally(p.take(kept as int), wrong()),
        kept,
    );
}

proof fn lemma_area_ordered(s: Seq<SampleView>, p: Seq<SampleView>, i: nat, steps: nat)
    requires
        0 < s.len() == p.len() <= usize::MAX,
        tally(s, wrong()) == tally(p, wrong()),
        perfectly_ranked(s),
        i <= steps <= usize::MAX,
    ensures
        area(s, i, steps).le(area(p, i, steps)),
        !area(s, i, steps).is_negative(),
        !area(p, i, steps).is_negative(),
    decreases i,
{
    if i > 0 {
        let j = (i - 1) as nat;
        lemma_area_ordered(s, p, j, steps);
        let first = real_of(1).over(real_of(s.len()));
        lemma_risk_ordered(s, p, coverage_step(i, steps));
        lemma_risk_ordered(s, p, coverage_step(j, steps));
        lemma_risk_ordered(s, p, first);
        lemma_risk_is_a_fraction(s, coverage_step(i, steps));
        lemma_risk_is_a_fraction(s, coverage_step(j, steps));
        lemma_risk_is_a_fraction(s, first);
        lemma_risk_is_a_fraction(p, coverage_step(i, steps));
        lemma_risk_is_a_fraction(p, coverage_step(j, steps));
        lemma_risk_is_a_fraction(p, first);
        lemma_coverage_steps(i, steps);
        let width = coverage_step(i, steps).minus(coverage_step(j, steps));
        let (a, b) = (risk_step(s, i, steps), risk_step(p, i, steps));
        let (x, y) = (risk_step(s, j, steps), risk_step(p, j, steps));
        lemma_trapezoid_monotone(a, b, x, y, width);
        lemma_plus_monotone(
            area(s, j, steps),
            area(p, j, steps),
            a.plus(x).over(real_of(2)).times(width),
            b.plus(y).over(real_of(2)).times(width),
        );
    }
}

// ---------------------------------------------------------------------------
// Beta
// ---------------------------------------------------------------------------

/// The error rate of the first `k` samples.
pub open spec fn prefix_risk(samples: Seq<SampleView>, k: nat) -> Real64 {
    share(tally(samples.take(k as int), wrong()), k)
}

proof fn lemma_tolerable_is_last(sorted: Seq<SampleView>, target: Real64, top: nat)
    requires
        top <= sorted.len() <= most_samples(),
        sorted.len() <= usize::MAX,
    ensures
        match tolerable_up_to(sorted, target, top) {
            Some(j) => {
                &&& j < top
                &&& prefix_risk(sorted, j + 1).le(risk(sorted, target).times(real_of(2)))
                &&& forall|k: nat|
                    j + 1 < k <= top ==> risk(sorted, target).times(real_of(2)).lt(
                        #[trigger] prefix_risk(sorted, k),
                    )
            },
            None => true,
        },
    decreases top,
{
    if top > 0 {
        law_coverage_of_count(sorted.len(), top);
        lemma_tolerable_is_last(sorted, target, (top - 1) as nat);
        let kept = kept_count(sorted.len(), target);
        lemma_tally_bound(sorted.take(kept as int), wrong());
        lemma_share_doubles(tally(sorted.take(kept as int), wrong()), kept);
        lemma_tally_bound(sorted.take(top as int), wrong());
        law_share_is_a_fraction(tally(sorted.take(top as int), wrong()), top);
        assert(risk(sorted, real_of(top).over(real_of(sorted.len()))) == prefix_risk(sorted, top));
    }
}

/// With five samples or more beta is the confidence of the last sample of the
/// longest prefix whose error rate is at most twice the risk at the target
/// coverage. There always is one, it holds at least the samples that the target
/// keeps, and alpha plays no part.
pub proof fn law_beta_ends_the_longest_tolerable_prefix(
    sorted: Seq<SampleView>,
    target: Real64,
    alpha: Real64,
)
    requires
        5 <= sorted.len() <= most_samples(),
        sorted.len() <= usize::MAX,
    ensures
        exists|j: nat|
            {
                &&& kept_count(sorted.len(), target) <= j + 1 <= sorted.len()
                &&& optimal_beta(sorted, target, alpha) == (#[trigger] sorted[j as int]).confidence
                &&& prefix_risk(sorted, j + 1).le(risk(sorted, target).times(real_of(2)))
                &&& forall|k: nat|
                    j + 1 < k <= sorted.len() ==> risk(sorted, target).times(real_of(2)).lt(
                        #[trigger] prefix_risk(sorted, k),
                    )
            },
        all_numbers(sorted) && descending(sorted) ==> optimal_beta(sorted, target, alpha).le(
            optimal_alpha(sorted, target),
        ),
{
    let n = sorted.len();
    let kept = kept_count(n, target);
    law_coverage_of_count(n, kept);
    lemma_tally_bound(sorted.take(kept as int), wrong());
    lemma_share_doubles(tally(sorted.take(kept as int), wrong()), kept);
    lemma_tolerable_at_least(sorted, target, kept, n);
    lemma_tolerable_is_last(sorted, target, n);
    let j = tolerable_up_to(sorted, target, n).unwrap();
    assert(optimal_beta(sorted, target, alpha) == sorted[j as int].confidence);
    if all_numbers(sorted) && descending(sorted) {
        assert(sorted[j as int].confidence.is_number());
        assert(sorted[kept - 1].confidence.is_number());
        if j > kept - 1 {
            assert(!sorted[kept - 1].confidence.lt(sorted[j as int].confidence));
        }
    }
}

/// With fewer than five samples beta is alpha less 0.7.
pub proof fn law_beta_of_few_samples(sorted: Seq<SampleView>, target: Real64, alpha: Real64)
    requires
        sorted.len() < 5,
    ensures
        optimal_beta(sorted, target, alpha) == alpha.minus(real_of(7).over(real_of(10))),
{
}

// ---------------------------------------------------------------------------
// Rates that add up
// ---------------------------------------------------------------------------

/// Do two finite numbers differ by less than one part in a million million?
pub open spec fn within_1e12(x: Real64, y: Real64) -> bool {
    &&& x is Finite
    &&& y is Finite
    &&& -pow2(1074) < 1_000_000_000_000 * (x.signed() - y.signed()) < pow2(1074)
}

/// A rounded sum is off by one part in `2^53` at most.
proof fn lemma_sum_error(p: nat)
    ensures
        0x20_0000_0000_0000 * distance(nearest_units(p, 1), p) <= p,
{
    if p >= 0x10_0000_0000_0000 {
        lemma_nearest_error(p, 1);
        assert(nearest_units(p, 1) * 1 == nearest_units(p, 1));
    } else {
        lemma_half_even_exact(p, 1);
        assert(p * 1 == p);
    }
}

/// The sum of two finite numbers that are not negative and not too large.
proof fn lemma_sum(x: Real64, y: Real64)
    requires
        is_amount(x),
        is_amount(y),
        x->units + y->units <= 0x1_0000_0000 * one_units(),
    ensures
        is_amount(x.plus(y)),
        0x20_0000_0000_0000 * distance(x.plus(y)->units, x->units + y->units) <= x->units
            + y->units,
{
    let sum = x->units + y->units;
    lemma_one_units();
    lemma_sum_error(sum);
    assert(nearest_units(sum, 1) < pow2(2098));
}

/// The units of the share of any number of samples, and how far they are off.
proof fn lemma_any_share_error(k: nat, n: nat)
    requires
        k <= n,
        1 <= n <= usize::MAX,
    ensures
        is_amount(share(k, n)),
        share(k, n)->units <= one_units(),
        0x20_0000_0000_0000 * distance(share(k, n)->units * n, k * one_units()) <= 4 * (n
            * one_units()),
{
    let u = one_units();
    let big: nat = 0x20_0000_0000_0000;
    lemma_one_units();
    lemma_small_real_of(1);
    law_share_is_a_fraction(k, n);
    let (ku, nu) = (k * u, n * u);
    assert(ku <= nu) by (nonlinear_arith)
        requires
            ku == k * u,
            nu == n * u,
            k <= n,
    ;
    if k == 0 {
        lemma_no_share(n);
        assert(0 * n == 0);
        assert(0 * u == 0);
    } else {
        lemma_real_of(k);
        lemma_real_of(n);
        lemma_sum_error(ku);
        lemma_sum_error(nu);
        let p = nearest_units(ku, 1);
        let q = nearest_units(nu, 1);
        let c = nearest_units(p * u, q);
        assert(share(k, n)->units == c);
        assert(p * u >= q * 0x10_0000_0000_0000) by (nonlinear_arith)
            requires
                p >= u,
                q <= 0x1_0000_0000_0000_0000 * u,
                u >= 0x4000_0000_0000_0000_0000_0000_0000_0000,
        ;
        lemma_nearest_error(p * u, q);
        // The three errors, each scaled by the unit.
        let (cn, cq) = (c * n, c * q);
        lemma_distance_scales(nu, q, c);
        lemma_distance_scales(p, ku, u);
        lemma_distance_scales(cn, ku, u);
        assert(nu * c == cn * u) by (nonlinear_arith)
            requires
                nu == n * u,
                cn == c * n,
        ;
        assert(q * c == cq) by (nonlinear_arith)
            requires
                cq == c * q,
        ;
        let (a, b) = (distance(nu, q), distance(p, ku));
        assert(big * (a * c) <= nu * u) by (nonlinear_arith)
            requires
                big * a <= nu,
                c <= u,
        ;
        assert(big * (b * u) <= ku * u) by (nonlinear_arith)
            requires
                big * b <= ku,
        ;
        assert(p * u <= 2 * (ku * u)) by (nonlinear_arith)
            requires
                p <= 2 * ku,
        ;
        assert(ku * u <= nu * u) by (nonlinear_arith)
            requires
                ku <= nu,
        ;
        let d = distance(cn, ku);
        assert(big * (d * u) <= 4 * (nu * u));
        assert(big * d <= 4 * nu) by (nonlinear_arith)
            requires
                big * (d * u) <= 4 * (nu * u),
                u >= 1,
        ;
    }
}

/// The units of the shares of parts that make up a whole nearly add up to one.
proof fn lemma_shares_add_up(a: nat, b: nat, c: nat, n: nat)
    requires
        a + b + c == n,
        1 <= n <= usize::MAX,
    ensures
        0x20_0000_0000_0000 * distance(
            share(a, n)->units + share(b, n)->units + share(c, n)->units,
            one_units(),
        ) <= 12 * one_units(),
{
    let u = one_units();
    lemma_any_share_error(a, n);
    lemma_any_share_error(b, n);
    lemma_any_share_error(c, n);
    let (x, y, z) = (share(a, n)->units, share(b, n)->units, share(c, n)->units);
    let t = x + y + z;
    let big: nat = 0x20_0000_0000_0000;
    assert(t * n == x * n + y * n + z * n) by (nonlinear_arith)
        requires
            t == x + y + z,
    ;
    assert(u * n == a * u + b * u + c * u) by (nonlinear_arith)
        requires
            a + b + c == n,
    ;
    assert(u * n == n * u) by (nonlinear_arith);
    assert(big * distance(t * n, u * n) <= 12 * (u * n));
    lemma_distance_scales(t, u, n);
    let d = distance(t, u);
    assert(big * d <= 12 * u) by (nonlinear_arith)
        requires
            big * (d * n) <= 12 * (u * n),
            n >= 1,
    ;
}

/// The rates of answered, abstained and escalated samples add up to one, within
/// rounding.
pub proof fn law_rates_add_up(samples: Seq<SampleView>, alpha: Real64, beta: Real64)
    requires
        1 <= samples.len() <= usize::MAX,
        all_numbers(samples),
        beta.le(alpha),
    ensures
        ({
            let n = samples.len();
            let answers = share(tally(samples, answered(alpha)), n);
            let abstentions = share(tally(samples, abstained(beta)), n);
            let escalations = share(tally(samples, escalated(alpha, beta)), n);
            within_1e12(answers.plus(abstentions).plus(escalations), real_of(1))
        }),
{
    let n = samples.len();
    let a = tally(samples, answered(alpha));
    let b = tally(samples, abstained(beta));
    let c = tally(samples, escalated(alpha, beta));
    law_one_outcome_each(samples, alpha, beta);
    lemma_shares_add_up(a, b, c, n);
    lemma_any_share_error(a, n);
    lemma_any_share_error(b, n);
    lemma_any_share_error(c, n);
    lemma_small_real_of(1);
    lemma_one_units();
    lemma_sum(share(a, n), share(b, n));
    lemma_sum(share(a, n).plus(share(b, n)), share(c, n));
}

/// Where alpha is at most beta nothing is escalated: the rate is zero.
pub proof fn law_no_band_no_escalation(samples: Seq<SampleView>, alpha: Real64, beta: Real64)
    requires
        samples.len() <= usize::MAX,
        alpha.le(beta),
    ensures
        tally(samples, escalated(alpha, beta)) == 0,
        share(tally(samples, escalated(alpha, beta)), samples.len()) == positive_zero(),
{
    assert forall|i: int| 0 <= i < samples.len() implies !(escalated(alpha, beta)(
        #[trigger] samples[i],
    )) by {}
    lemma_tally_none(samples, escalated(alpha, beta));
    lemma_no_share(samples.len());
}

/// Full coverage leaves out next to nothing, however many samples there are.
proof fn lemma_full_coverage_keeps_nearly_all(n: nat)
    requires
        1 <= n <= usize::MAX,
    ensures
        1 <= kept_count(n, real_of(1)) <= n,
        0x20_0000_0000_0000 * (n - kept_count(n, real_of(1))) <= 6 * n,
{
    let u = one_units();
    let big: nat = 0x20_0000_0000_0000;
    lemma_one_units();
    lemma_small_real_of(1);
    lemma_real_of(n);
    assert(1 * u == u);
    let nu = n * u;
    lemma_sum_error(nu);
    let m = nearest_units(nu, 1);
    assert(u * m >= u * 0x10_0000_0000_0000) by (nonlinear_arith)
        requires
            m >= 0x10_0000_0000_0000,
    ;
    lemma_nearest_error(u * m, u);
    let w = nearest_units(u * m, u);
    assert(u * m == m * u) by (nonlinear_arith);
    lemma_distance_scales(w, m, u);
    let e = distance(w, m);
    assert(big * e <= m) by (nonlinear_arith)
        requires
            big * (e * u) <= m * u,
            u >= 1,
    ;
    assert(w < pow2(2098));
    let r = (2 * w + u) / (2 * u);
    lemma_fundamental_div_mod((2 * w + u) as int, (2 * u) as int);
    let kept = kept_count(n, real_of(1));
    let gap = n - kept;
    if gap > 0 {
        // Then the product rounds to fewer samples, and to no fewer than are kept.
        assert(r <= kept);
        let top = (kept + 1) as nat;
        assert((2 * u) * r + (2 * u) <= (2 * u) * top) by (nonlinear_arith)
            requires
                r + 1 <= top,
        ;
        assert((2 * u) * top == 2 * (nu - gap * u + u)) by (nonlinear_arith)
            requires
                top == n - gap + 1,
                nu == n * u,
        ;
        let gu = gap * u;
        assert(gu >= u) by (nonlinear_arith)
            requires
                gu == gap * u,
                gap >= 1,
        ;
        assert(big * gu <= 6 * nu);
        assert(big * gap <= 6 * n) by (nonlinear_arith)
            requires
                big * gu <= 6 * nu,
                gu == gap * u,
                nu == n * u,
                u >= 1,
        ;
    }
}

/// The risk at full coverage is one less the accuracy, within rounding, whatever
/// the order of the samples.
pub proof fn law_full_coverage_risk_and_accuracy(samples: Seq<SampleView>)
    requires
        1 <= samples.len() <= usize::MAX,
    ensures
        within_1e12(
            risk(samples, real_of(1)),
            real_of(1).minus(share(tally(samples, right()), samples.len())),
        ),
{
    let n = samples.len();
    let u = one_units();
    let big: nat = 0x20_0000_0000_0000;
    lemma_one_units();
    lemma_small_real_of(1);
    lemma_full_coverage_keeps_nearly_all(n);
    let kept = kept_count(n, real_of(1));
    let gap = (n - kept) as nat;
    let front = samples.take(kept as int);
    let a = tally(samples, right());
    let w = tally(front, wrong());
    law_right_or_wrong(samples);
    lemma_tally_split(samples, kept as int, wrong());
    lemma_tally_bound(samples.skip(kept as int), wrong());
    lemma_tally_bound(front, wrong());
    let rest_wrong = tally(samples.skip(kept as int), wrong());
    assert(a + w + rest_wrong == n);
    lemma_any_share_error(a, n);
    lemma_any_share_error(w, kept);
    let c = share(w, kept)->units;
    let d = share(a, n)->units;
    let (nu, gu) = (n * u, gap * u);
    assert(big * gu <= 6 * nu) by (nonlinear_arith)
        requires
            big * gap <= 6 * n,
            gu == gap * u,
            nu == n * u,
    ;
    assert(c * n == c * kept + c * gap) by (nonlinear_arith)
        requires
            n == kept + gap,
    ;
    assert(c * gap <= gu) by (nonlinear_arith)
        requires
            c <= u,
            gu == gap * u,
    ;
    assert(0 <= c * gap) by (nonlinear_arith);
    assert(nu == a * u + w * u + rest_wrong * u) by (nonlinear_arith)
        requires
            a + w + rest_wrong == n,
            nu == n * u,
    ;
    assert(rest_wrong * u <= gu) by (nonlinear_arith)
        requires
            rest_wrong <= gap,
            gu == gap * u,
    ;
    assert(kept * u <= nu) by (nonlinear_arith)
        requires
            kept <= n,
            nu == n * u,
    ;
    let t = c + d;
    assert(t * n == c * n + d * n) by (nonlinear_arith)
        requires
            t == c + d,
    ;
    assert(u * n == nu) by (nonlinear_arith)
        requires
            nu == n * u,
    ;
    assert(big * distance(t * n, u * n) <= 20 * (u * n));
    lemma_distance_scales(t, u, n);
    let far = distance(t, u);
    assert(big * far <= 20 * u) by (nonlinear_arith)
        requires
            big * (far * n) <= 20 * (u * n),
            n >= 1,
    ;
    let rest = (u - d) as nat;
    lemma_sum_error(rest);
    assert(nearest_units(rest, 1) < pow2(2098));
}

} // verus!
