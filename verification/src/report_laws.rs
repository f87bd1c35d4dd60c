//! What a report says of the samples it is made from: laws over the samples
//! themselves, counted and compared directly.

use crate::decimal::{decimal, fixed_point, right_aligned};
use crate::eval::{
    abstained, abstained_right, answered, answered_wrong, area, aurc, by_confidence,
    coverage_step, curve_steps, escalated, human_report, inserted, kept_count, optimal_alpha,
    optimal_beta, report_on, right, risk, risk_step, row, rule, share, tally, valid_coverage, viewed, wrong,
    EvalReport, ReportView, SampleView, ScoredSample,
};
use crate::eval_laws::{
    all_numbers, law_sorting_descends, law_sorting_keeps_the_number, law_sorting_keeps_the_samples,
};
use crate::rounding::{law_small_naturals_are_exact, real_of, Real64};
use vstd::arithmetic::div_mod::lemma_fundamental_div_mod;
use vstd::arithmetic::power2::{lemma_pow2_pos, pow2};
use vstd::prelude::*;

verus! {

/// The quotient of two natural numbers as binary64 numbers.
pub open spec fn quotient(part: nat, whole: nat) -> Real64 {
    real_of(part).over(real_of(whole))
}

/// Zero.
pub open spec fn nothing() -> Real64 {
    Real64::Finite { negative: false, units: 0 }
}

// ---------------------------------------------------------------------------
// Counting
// ---------------------------------------------------------------------------

/// The tally of a property is the number of samples that are left when all others
/// are taken out.
pub proof fn law_tally_counts(samples: Seq<SampleView>, has: spec_fn(SampleView) -> bool)
    ensures
        tally(samples, has) == samples.filter(has).len(),
    decreases samples.len(),
{
    reveal(Seq::filter);
    if samples.len() > 0 {
        law_tally_counts(samples.drop_last(), has);
    }
}

/// Tallies of properties that agree on every sample are the same.
proof fn lemma_same_tally(
    samples: Seq<SampleView>,
    a: spec_fn(SampleView) -> bool,
    b: spec_fn(SampleView) -> bool,
)
    requires
        forall|s: SampleView| #[trigger] a(s) == b(s),
    ensures
        tally(samples, a) == tally(samples, b),
    decreases samples.len(),
{
    if samples.len() > 0 {
        lemma_same_tally(samples.drop_last(), a, b);
    }
}

/// The number of samples of a kind, counted on the samples as they came in, is the
/// tally over the sorted ones.
proof fn lemma_count(
    samples: Seq<SampleView>,
    kind: spec_fn(SampleView) -> bool,
    has: spec_fn(SampleView) -> bool,
)
    requires
        forall|s: SampleView| #[trigger] kind(s) == has(s),
    ensures
        tally(by_confidence(samples), kind) == samples.filter(has).len(),
{
    law_sorting_keeps_the_samples(samples, kind);
    lemma_same_tally(samples, kind, has);
    law_tally_counts(samples, has);
}

/// What the properties say of a sample.
pub proof fn law_properties(s: SampleView, alpha: Real64, beta: Real64)
    ensures
        right()(s) <==> s.correct,
        wrong()(s) <==> !s.correct,
        answered(alpha)(s) <==> alpha.le(s.confidence),
        abstained(beta)(s) <==> s.confidence.lt(beta),
        escalated(alpha, beta)(s) <==> beta.le(s.confidence) && s.confidence.lt(alpha),
        answered_wrong(alpha)(s) <==> alpha.le(s.confidence) && !s.correct,
        abstained_right(beta)(s) <==> s.confidence.lt(beta) && s.correct,
{
}

/// A share is the quotient of the two numbers, and zero where the whole is nothing.
pub proof fn law_share(part: nat, whole: nat)
    ensures
        whole > 0 ==> share(part, whole) == quotient(part, whole),
        share(part, 0) == nothing(),
{
}

// ---------------------------------------------------------------------------
// Order
// ---------------------------------------------------------------------------

proof fn lemma_inserted_neighbours(sorted: Seq<SampleView>, x: SampleView)
    requires
        forall|i: int|
            0 <= i < sorted.len() - 1 ==> !(#[trigger] sorted[i]).confidence.lt(
                sorted[i + 1].confidence,
            ),
    ensures
        ({
            let r = inserted(sorted, x);
            &&& r.len() == sorted.len() + 1
            &&& forall|i: int|
                0 <= i < r.len() - 1 ==> !(#[trigger] r[i]).confidence.lt(r[i + 1].confidence)
            &&& r.last() == x || (sorted.len() > 0 && r.last() == sorted.last())
        }),
    decreases sorted.len(),
{
    let r = inserted(sorted, x);
    if sorted.len() > 0 && sorted.last().confidence.lt(x.confidence) {
        let rest = sorted.drop_last();
        assert forall|i: int| 0 <= i < rest.len() - 1 implies !(#[trigger] rest[i]).confidence.lt(
            rest[i + 1].confidence,
        ) by {
            assert(rest[i] == sorted[i]);
            assert(rest[i + 1] == sorted[i + 1]);
        }
        lemma_inserted_neighbours(rest, x);
        let front = inserted(rest, x);
        assert forall|i: int| 0 <= i < r.len() - 1 implies !(#[trigger] r[i]).confidence.lt(
            r[i + 1].confidence,
        ) by {
            assert(r[i] == front[i]);
            if i < front.len() - 1 {
                assert(r[i + 1] == front[i + 1]);
            } else {
                assert(r[i + 1] == sorted.last());
                if front.last() != x {
                    assert(sorted[sorted.len() - 2] == rest.last());
                }
            }
        }
    } else {
        assert forall|i: int| 0 <= i < r.len() - 1 implies !(#[trigger] r[i]).confidence.lt(
            r[i + 1].confidence,
        ) by {
            assert(r[i] == sorted[i]);
            if i < sorted.len() - 1 {
                assert(r[i + 1] == sorted[i + 1]);
            }
        }
    }
}

/// After sorting, no sample is more confident than the one just before it, also
/// where some confidence is not a number.
pub proof fn law_sorted_neighbours(samples: Seq<SampleView>)
    ensures
        ({
            let sorted = by_confidence(samples);
            forall|i: int|
                0 <= i < sorted.len() - 1 ==> !(#[trigger] sorted[i]).confidence.lt(
                    sorted[i + 1].confidence,
                )
        }),
    decreases samples.len(),
{
    if samples.len() > 0 {
        law_sorted_neighbours(samples.drop_last());
        lemma_inserted_neighbours(by_confidence(samples.drop_last()), samples.last());
    }
}

// ---------------------------------------------------------------------------
// Coverage and risk
// ---------------------------------------------------------------------------

/// How many samples a coverage keeps: the whole number nearest to its product with
/// their number, halves upwards, but at least one and at most all.
pub proof fn law_kept_is_nearest(n: nat, coverage: Real64)
    requires
        0 < n <= usize::MAX,
    ensures
        ({
            let kept = kept_count(n, coverage) as int;
            let one = pow2(1074) as int;
            &&& 1 <= kept <= n
            &&& match coverage.times(real_of(n)) {
                Real64::Finite { negative, units } => if negative {
                    kept == 1
                } else {
                    &&& kept > 1 ==> (2 * kept - 1) * one <= 2 * units
                    &&& kept < n ==> 2 * units < (2 * kept + 1) * one
                },
                Real64::Infinite { negative } => if negative {
                    kept == 1
                } else {
                    kept == n
                },
                Real64::Nan => kept == 1,
            }
        }),
        kept_count(0, coverage) == 0,
{
    lemma_pow2_pos(1074);
    let one = pow2(1074) as int;
    match coverage.times(real_of(n)) {
        Real64::Finite { negative, units } => {
            if !negative {
                let r = (2 * units + one) / (2 * one);
                lemma_fundamental_div_mod(2 * units + one, 2 * one);
                let kept = kept_count(n, coverage) as int;
                assert((2 * one) * r <= 2 * units + one < (2 * one) * r + 2 * one);
                if kept > 1 {
                    assert(r >= kept);
                    assert((2 * kept - 1) * one <= (2 * one) * r - one) by (nonlinear_arith)
                        requires
                            r >= kept,
                            one > 0,
                    ;
                }
                if kept < n {
                    assert(r <= kept);
                    assert((2 * one) * r + one <= (2 * kept + 1) * one) by (nonlinear_arith)
                        requires
                            r <= kept,
                            one > 0,
                    ;
                }
            }
        },
        _ => {},
    }
}

/// The risk at a coverage is the error rate of the first samples that it keeps:
/// the number of wrong ones over the number of all.
pub proof fn law_risk_is_the_error_rate(samples: Seq<SampleView>, coverage: Real64)
    ensures
        ({
            let kept = kept_count(samples.len(), coverage);
            let front = samples.take(kept as int);
            &&& samples.len() > 0 ==> risk(samples, coverage) == quotient(
                front.filter(|s: SampleView| !s.correct).len(),
                kept,
            )
            &&& samples.len() == 0 ==> risk(samples, coverage) == nothing()
        }),
{
    let front = samples.take(kept_count(samples.len(), coverage) as int);
    let has = |s: SampleView| !s.correct;
    lemma_same_tally(front, wrong(), has);
    law_tally_counts(front, has);
}

/// The area under the curve is what running sums come to: they start at zero, and
/// each adds a trapezoid, between one coverage and the next, of the mean of the
/// risks at both. The coverages are evenly spaced from zero to one; the first risk
/// is that of a single sample.
pub proof fn law_area_of_running_sums(
    samples: Seq<SampleView>,
    steps: nat,
    coverages: Seq<Real64>,
    risks: Seq<Real64>,
    sums: Seq<Real64>,
)
    requires
        samples.len() > 0,
        coverages.len() == steps + 1,
        risks.len() == steps + 1,
        sums.len() == steps + 1,
        coverages[0] == nothing(),
        risks[0] == risk(samples, quotient(1, samples.len())),
        forall|i: int|
            1 <= i <= steps ==> #[trigger] coverages[i] == quotient(i as nat, steps) && risks[i]
                == risk(samples, coverages[i]),
        sums[0] == nothing(),
        forall|i: int|
            0 <= i < steps ==> #[trigger] sums[i + 1] == sums[i].plus(
                risks[i + 1].plus(risks[i]).over(real_of(2)).times(
                    coverages[i + 1].minus(coverages[i]),
                ),
            ),
    ensures
        aurc(samples, steps) == sums[steps as int],
{
    lemma_area_sums(samples, steps, coverages, risks, sums, steps);
}

proof fn lemma_area_sums(
    samples: Seq<SampleView>,
    steps: nat,
    coverages: Seq<Real64>,
    risks: Seq<Real64>,
    sums: Seq<Real64>,
    k: nat,
)
    requires
        samples.len() > 0,
        k <= steps,
        coverages.len() == steps + 1,
        risks.len() == steps + 1,
        sums.len() == steps + 1,
        coverages[0] == nothing(),
        risks[0] == risk(samples, quotient(1, samples.len())),
        forall|i: int|
            1 <= i <= steps ==> #[trigger] coverages[i] == quotient(i as nat, steps) && risks[i]
                == risk(samples, coverages[i]),
        sums[0] == nothing(),
        forall|i: int|
            0 <= i < steps ==> #[trigger] sums[i + 1] == sums[i].plus(
                risks[i + 1].plus(risks[i]).over(real_of(2)).times(
                    coverages[i + 1].minus(coverages[i]),
                ),
            ),
    ensures
        area(samples, k, steps) == sums[k as int],
        coverage_step(k, steps) == coverages[k as int],
        risk_step(samples, k, steps) == risks[k as int],
    decreases k,
{
    if k > 0 {
        lemma_area_sums(samples, steps, coverages, risks, sums, (k - 1) as nat);
        let j = k - 1;
        assert(coverages[k as int] == quotient(k, steps));
        assert(sums[j + 1] == sums[j].plus(
            risks[j + 1].plus(risks[j]).over(real_of(2)).times(
                coverages[j + 1].minus(coverages[j]),
            ),
        ));
    }
}

/// Without samples there is no area.
pub proof fn law_no_samples_no_area(samples: Seq<SampleView>, steps: nat)
    requires
        samples.len() == 0,
    ensures
        aurc(samples, steps) == nothing(),
{
}

/// The curve is sampled at as many coverages as there are samples, and at a hundred
/// at least.
pub proof fn law_curve_steps(n: nat)
    ensures
        curve_steps(n) >= n,
        curve_steps(n) >= 100,
        curve_steps(n) == n || curve_steps(n) == 100,
{
}

/// A target coverage is valid exactly when it is above zero and at most one.
pub proof fn law_valid_coverage(coverage: Real64)
    ensures
        valid_coverage(coverage) <==> {
            &&& coverage is Finite
            &&& !coverage.is_negative()
            &&& 0 < coverage->units <= pow2(1074)
        },
{
    law_small_naturals_are_exact(1);
    assert(1 * pow2(1074) == pow2(1074));
}

// ---------------------------------------------------------------------------
// Thresholds
// ---------------------------------------------------------------------------

/// Alpha is the confidence of a sample such that fewer samples than the target
/// coverage keeps are more confident, and at least as many as it keeps are as
/// confident or more.
pub proof fn law_alpha_splits_the_samples(samples: Seq<SampleView>, target: Real64)
    requires
        samples.len() > 0,
        all_numbers(samples),
    ensures
        ({
            let alpha = optimal_alpha(by_confidence(samples), target);
            let kept = kept_count(samples.len(), target);
            &&& samples.filter(|s: SampleView| s.confidence == alpha).len() > 0
            &&& samples.filter(|s: SampleView| alpha.lt(s.confidence)).len() < kept
            &&& samples.filter(|s: SampleView| alpha.le(s.confidence)).len() >= kept
        }),
{
    let sorted = by_confidence(samples);
    law_sorting_keeps_the_number(samples);
    law_sorting_descends(samples);
    let kept = kept_count(samples.len(), target) as int;
    let alpha = optimal_alpha(sorted, target);
    let same = |s: SampleView| s.confidence == alpha;
    let above = |s: SampleView| alpha.lt(s.confidence);
    let reached = |s: SampleView| alpha.le(s.confidence);
    lemma_count(samples, same, same);
    lemma_count(samples, above, above);
    lemma_count(samples, reached, reached);
    assert(alpha == sorted[kept - 1].confidence);
    lemma_tally_some(sorted, same, kept - 1);
    assert forall|i: int| kept - 1 <= i < sorted.len() implies !(above(#[trigger] sorted[i])) by {
        assert(sorted[kept - 1].confidence.is_number());
        assert(sorted[i].confidence.is_number());
    }
    lemma_tally_front(sorted, above, kept - 1);
    assert forall|i: int| 0 <= i < kept implies reached(#[trigger] sorted[i]) by {
        assert(sorted[kept - 1].confidence.is_number());
        assert(sorted[i].confidence.is_number());
    }
    lemma_tally_back(sorted, reached, kept);
}

proof fn lemma_tally_some(samples: Seq<SampleView>, has: spec_fn(SampleView) -> bool, k: int)
    requires
        0 <= k < samples.len(),
        has(samples[k]),
    ensures
        tally(samples, has) > 0,
    decreases samples.len(),
{
    if k < samples.len() - 1 {
        lemma_tally_some(samples.drop_last(), has, k);
    }
}

proof fn lemma_tally_front(samples: Seq<SampleView>, has: spec_fn(SampleView) -> bool, k: int)
    requires
        0 <= k <= samples.len(),
        forall|i: int| k <= i < samples.len() ==> !(has(#[trigger] samples[i])),
    ensures
        tally(samples, has) <= k,
    decreases samples.len(),
{
    if samples.len() > 0 {
        let rest = samples.drop_last();
        if k == samples.len() {
            lemma_tally_front(rest, has, k - 1);
        } else {
            assert(samples.last() == samples[samples.len() - 1]);
            assert forall|i: int| k <= i < rest.len() implies !(has(#[trigger] rest[i])) by {
                assert(rest[i] == samples[i]);
            }
            lemma_tally_front(rest, has, k);
        }
    }
}

proof fn lemma_tally_back(samples: Seq<SampleView>, has: spec_fn(SampleView) -> bool, k: int)
    requires
        0 <= k <= samples.len(),
        forall|i: int| 0 <= i < k ==> has(#[trigger] samples[i]),
    ensures
        tally(samples, has) >= k,
    decreases samples.len(),
{
    if samples.len() > 0 {
        let rest = samples.drop_last();
        let top = if k < samples.len() {
            k
        } else {
            k - 1
        };
        assert forall|i: int| 0 <= i < top implies has(#[trigger] rest[i]) by {
            assert(rest[i] == samples[i]);
        }
        lemma_tally_back(rest, has, top);
        if k == samples.len() {
            assert(samples.last() == samples[samples.len() - 1]);
        }
    }
}

/// Alpha is the confidence of the last sample that the target coverage keeps, in
/// whatever order the samples are; minus one half without samples.
pub proof fn law_alpha_is_the_last_kept(sorted: Seq<SampleView>, target: Real64)
    ensures
        sorted.len() > 0 ==> {
            let front = sorted.take(kept_count(sorted.len(), target) as int);
            front.len() > 0 && optimal_alpha(sorted, target) == front.last().confidence
        },
        sorted.len() == 0 ==> optimal_alpha(sorted, target) == quotient(1, 2).neg(),
{
}

// ---------------------------------------------------------------------------
// The report
// ---------------------------------------------------------------------------

/// A report counts the samples it is given, in whatever order: all; the right ones;
/// those from alpha on; those below beta; and what is left counts as escalated.
pub proof fn law_report_counts(samples: Seq<SampleView>, target: Real64, dataset: Seq<char>)
    ensures
        ({
            let r = report_on(samples, target, dataset);
            let alpha = r.optimal_alpha;
            let beta = r.optimal_beta;
            &&& r.dataset == dataset
            &&& r.target_coverage == target
            &&& r.n == samples.len()
            &&& r.n_correct == samples.filter(|s: SampleView| s.correct).len()
            &&& r.n_answered == samples.filter(|s: SampleView| alpha.le(s.confidence)).len()
            &&& r.n_abstained == samples.filter(|s: SampleView| s.confidence.lt(beta)).len()
            &&& r.n_answered + r.n_abstained <= r.n ==> r.n_answered + r.n_abstained
                + r.n_escalated == r.n
            &&& r.n_answered + r.n_abstained > r.n ==> r.n_escalated == 0
        }),
{
    let r = report_on(samples, target, dataset);
    law_sorting_keeps_the_number(samples);
    lemma_count(samples, right(), |s: SampleView| s.correct);
    let alpha = r.optimal_alpha;
    let beta = r.optimal_beta;
    lemma_count(samples, answered(alpha), |s: SampleView| alpha.le(s.confidence));
    lemma_count(samples, abstained(beta), |s: SampleView| s.confidence.lt(beta));
}

/// The accuracy in a report is the number of right samples over the number of all,
/// and zero without samples.
pub proof fn law_report_accuracy(samples: Seq<SampleView>, target: Real64, dataset: Seq<char>)
    ensures
        ({
            let r = report_on(samples, target, dataset);
            let good = samples.filter(|s: SampleView| s.correct).len();
            &&& samples.len() > 0 ==> r.accuracy == quotient(good, samples.len())
            &&& samples.len() == 0 ==> r.accuracy == nothing()
        }),
{
    law_sorting_keeps_the_number(samples);
    lemma_count(samples, right(), |s: SampleView| s.correct);
}

/// The rates in a report: the answered, the abstained and the escalated samples over
/// all; the wrong ones among the answered over the answered, which is the risk; the
/// right ones among the abstained over the abstained. Nothing over nothing is zero.
pub proof fn law_report_rates(samples: Seq<SampleView>, target: Real64, dataset: Seq<char>)
    ensures
        ({
            let r = report_on(samples, target, dataset);
            let (alpha, beta) = (r.optimal_alpha, r.optimal_beta);
            let n = samples.len();
            let in_between = samples.filter(
                |s: SampleView| beta.le(s.confidence) && s.confidence.lt(alpha),
            ).len();
            let accepted_wrong = samples.filter(
                |s: SampleView| alpha.le(s.confidence) && !s.correct,
            ).len();
            let abstained_good = samples.filter(
                |s: SampleView| s.confidence.lt(beta) && s.correct,
            ).len();
            &&& n > 0 ==> {
                &&& r.coverage == quotient(r.n_answered, n)
                &&& r.abstain_rate == quotient(r.n_abstained, n)
                &&& r.escalation_rate == quotient(in_between, n)
            }
            &&& n == 0 ==> {
                &&& r.coverage == nothing()
                &&& r.abstain_rate == nothing()
                &&& r.escalation_rate == nothing()
            }
            &&& r.n_answered > 0 ==> r.false_accept_rate == quotient(accepted_wrong, r.n_answered)
            &&& r.n_answered == 0 ==> r.false_accept_rate == nothing()
            &&& r.risk == r.false_accept_rate
            &&& r.n_abstained > 0 ==> r.false_abstain_rate == quotient(
                abstained_good,
                r.n_abstained,
            )
            &&& r.n_abstained == 0 ==> r.false_abstain_rate == nothing()
        }),
{
    let r = report_on(samples, target, dataset);
    let (alpha, beta) = (r.optimal_alpha, r.optimal_beta);
    law_sorting_keeps_the_number(samples);
    lemma_count(
        samples,
        escalated(alpha, beta),
        |s: SampleView| beta.le(s.confidence) && s.confidence.lt(alpha),
    );
    lemma_count(
        samples,
        answered_wrong(alpha),
        |s: SampleView| alpha.le(s.confidence) && !s.correct,
    );
    lemma_count(
        samples,
        abstained_right(beta),
        |s: SampleView| s.confidence.lt(beta) && s.correct,
    );
}

/// The thresholds and the area in a report are those of the samples in order of
/// confidence.
pub proof fn law_report_searches_the_sorted(
    samples: Seq<SampleView>,
    target: Real64,
    dataset: Seq<char>,
)
    ensures
        ({
            let r = report_on(samples, target, dataset);
            let sorted = by_confidence(samples);
            let steps: nat = if samples.len() < 100 {
                100
            } else {
                samples.len()
            };
            &&& r.optimal_alpha == optimal_alpha(sorted, target)
            &&& r.optimal_beta == optimal_beta(sorted, target, r.optimal_alpha)
            &&& r.aurc == aurc(sorted, steps)
        }),
{
    law_sorting_keeps_the_number(samples);
}

/// Two reports on the same samples at one target differ in the name of the dataset
/// only.
pub proof fn law_dataset_is_a_name(
    samples: Seq<SampleView>,
    target: Real64,
    a: Seq<char>,
    b: Seq<char>,
)
    ensures
        report_on(samples, target, a) == (ReportView {
            dataset: a,
            ..report_on(samples, target, b)
        }),
{
}

/// The views of samples and reports show every part as it is.
pub proof fn law_samples_are_seen(samples: Seq<ScoredSample>, r: EvalReport)
    ensures
        viewed(samples).len() == samples.len(),
        forall|i: int|
            0 <= i < samples.len() ==> (#[trigger] viewed(samples)[i]).confidence
                == samples[i].confidence@ && viewed(samples)[i].correct == samples[i].correct,
        r@.dataset == r.dataset@,
        r@.target_coverage == r.target_coverage@,
        r@.n == r.n,
        r@.n_correct == r.n_correct,
        r@.accuracy == r.accuracy@,
        r@.optimal_alpha == r.optimal_alpha@,
        r@.optimal_beta == r.optimal_beta@,
        r@.coverage == r.coverage@,
        r@.risk == r.risk@,
        r@.aurc == r.aurc@,
        r@.false_accept_rate == r.false_accept_rate@,
        r@.false_abstain_rate == r.false_abstain_rate@,
        r@.abstain_rate == r.abstain_rate@,
        r@.escalation_rate == r.escalation_rate@,
        r@.n_answered == r.n_answered,
        r@.n_abstained == r.n_abstained,
        r@.n_escalated == r.n_escalated,
{
}

// ---------------------------------------------------------------------------
// The table
// ---------------------------------------------------------------------------

/// A rate as it stands in the table: four decimal places, to the right of eight
/// columns.
pub open spec fn rate_cell(rate: Real64) -> Seq<char> {
    right_aligned(fixed_point(rate, 4), 8) + " |\n"@
}

/// A count as it stands in the table.
pub open spec fn count_cell(count: nat) -> Seq<char> {
    right_aligned(decimal(count), 8) + " |\n"@
}

/// All texts of a sequence, one after the other.
pub open spec fn joined_text(parts: Seq<Seq<char>>) -> Seq<char>
    decreases parts.len(),
{
    if parts.len() == 0 {
        Seq::empty()
    } else {
        joined_text(parts.drop_last()) + parts.last()
    }
}

/// The lines of a report for people to read: each figure stands behind its own name.
pub open spec fn is_line(r: ReportView, i: int, line: Seq<char>) -> bool {
    &&& i == 0 ==> line == "rag-gate evaluate: "@ + r.dataset + "\ntarget coverage: "@
        + fixed_point(r.target_coverage, 2) + "\n"@
    &&& i == 1 ==> line == "+--------------------+----------+\n"@
    &&& i == 2 ==> line == "| n                  | "@ + count_cell(r.n)
    &&& i == 3 ==> line == "| n_correct          | "@ + count_cell(r.n_correct)
    &&& i == 4 ==> line == "| accuracy           | "@ + rate_cell(r.accuracy)
    &&& i == 5 ==> line == "| optimal_alpha      | "@ + rate_cell(r.optimal_alpha)
    &&& i == 6 ==> line == "| optimal_beta       | "@ + rate_cell(r.optimal_beta)
    &&& i == 7 ==> line == "| coverage           | "@ + rate_cell(r.coverage)
    &&& i == 8 ==> line == "| risk               | "@ + rate_cell(r.risk)
    &&& i == 9 ==> line == "| aurc               | "@ + rate_cell(r.aurc)
    &&& i == 10 ==> line == "| false_accept_rate  | "@ + rate_cell(r.false_accept_rate)
    &&& i == 11 ==> line == "| false_abstain_rate | "@ + rate_cell(r.false_abstain_rate)
    &&& i == 12 ==> line == "| abstain_rate       | "@ + rate_cell(r.abstain_rate)
    &&& i == 13 ==> line == "| escalation_rate    | "@ + rate_cell(r.escalation_rate)
    &&& i == 14 ==> line == "+--------------------+----------+\n"@
    &&& i == 15 ==> line == "answered "@ + decimal(r.n_answered) + "/"@ + decimal(r.n)
    &&& i == 16 ==> line == "  abstained "@ + decimal(r.n_abstained) + "/"@ + decimal(r.n)
    &&& i == 17 ==> line == "  escalated "@ + decimal(r.n_escalated) + "/"@ + decimal(r.n)
    &&& i == 18 ==> line
        == "\n(risk == false_accept_rate under threshold gating: both are the error\nrate among the answered set.)"@
}

proof fn lemma_regroup(text: Seq<char>, a: Seq<char>, b: Seq<char>)
    ensures
        text + a + b == text + (a + b),
{
    assert(text + a + b =~= text + (a + b));
}

proof fn lemma_row(label: Seq<char>, value: Seq<char>)
    ensures
        row(label, value) == label + (right_aligned(value, 8) + " |\n"@),
{
    lemma_regroup(label, right_aligned(value, 8), " |\n"@);
}

/// The table, from the number of samples on.
spec fn rows(r: ReportView) -> Seq<Seq<char>> {
    seq![
        row("| n                  | "@, decimal(r.n)),
        row("| n_correct          | "@, decimal(r.n_correct)),
        row("| accuracy           | "@, fixed_point(r.accuracy, 4)),
        row("| optimal_alpha      | "@, fixed_point(r.optimal_alpha, 4)),
        row("| optimal_beta       | "@, fixed_point(r.optimal_beta, 4)),
        row("| coverage           | "@, fixed_point(r.coverage, 4)),
        row("| risk               | "@, fixed_point(r.risk, 4)),
        row("| aurc               | "@, fixed_point(r.aurc, 4)),
        row("| false_accept_rate  | "@, fixed_point(r.false_accept_rate, 4)),
        row("| false_abstain_rate | "@, fixed_point(r.false_abstain_rate, 4)),
        row("| abstain_rate       | "@, fixed_point(r.abstain_rate, 4)),
        row("| escalation_rate    | "@, fixed_point(r.escalation_rate, 4)),
    ]
}

/// A report for people to read is these lines, one after the other, and nothing
/// else.
pub proof fn law_human_report_lines(r: ReportView, lines: Seq<Seq<char>>)
    requires
        lines.len() == 19,
        forall|i: int| 0 <= i < 19 ==> is_line(r, i, #[trigger] lines[i]),
    ensures
        human_report(r) == joined_text(lines),
{
    let t = rows(r);
    assert(lines[0] == "rag-gate evaluate: "@ + r.dataset + "\ntarget coverage: "@ + fixed_point(
        r.target_coverage,
        2,
    ) + "\n"@);
    assert(lines[1] == rule() && lines[14] == rule());
    lemma_row("| n                  | "@, decimal(r.n));
    assert(lines[2] == t[0]);
    lemma_row("| n_correct          | "@, decimal(r.n_correct));
    assert(lines[3] == t[1]);
    lemma_row("| accuracy           | "@, fixed_point(r.accuracy, 4));
    assert(lines[4] == t[2]);
    lemma_row("| optimal_alpha      | "@, fixed_point(r.optimal_alpha, 4));
    assert(lines[5] == t[3]);
    lemma_row("| optimal_beta       | "@, fixed_point(r.optimal_beta, 4));
    assert(lines[6] == t[4]);
    lemma_row("| coverage           | "@, fixed_point(r.coverage, 4));
    assert(lines[7] == t[5]);
    lemma_row("| risk               | "@, fixed_point(r.risk, 4));
    assert(lines[8] == t[6]);
    lemma_row("| aurc               | "@, fixed_point(r.aurc, 4));
    assert(lines[9] == t[7]);
    lemma_row("| false_accept_rate  | "@, fixed_point(r.false_accept_rate, 4));
    assert(lines[10] == t[8]);
    lemma_row("| false_abstain_rate | "@, fixed_point(r.false_abstain_rate, 4));
    assert(lines[11] == t[9]);
    lemma_row("| abstain_rate       | "@, fixed_point(r.abstain_rate, 4));
    assert(lines[12] == t[10]);
    lemma_row("| escalation_rate    | "@, fixed_point(r.escalation_rate, 4));
    assert(lines[13] == t[11]);
    let table = lines[0] + lines[1] + t[0] + t[1] + t[2] + t[3] + t[4] + t[5] + t[6] + t[7] + t[8]
        + t[9] + t[10] + t[11] + lines[14];
    let (n, a, b, c) = (decimal(r.n), decimal(r.n_answered), decimal(r.n_abstained), decimal(r.n_escalated));
    lemma_fraction("answered "@, a, n);
    lemma_fraction("  abstained "@, b, n);
    lemma_fraction("  escalated "@, c, n);
    assert(lines[15] == "answered "@ + (a + "/"@ + n));
    assert(lines[16] == "  abstained "@ + (b + "/"@ + n));
    assert(lines[17] == "  escalated "@ + (c + "/"@ + n));
    lemma_regroup(table, "answered "@, a + "/"@ + n);
    let one = table + lines[15];
    lemma_regroup(one, "  abstained "@, b + "/"@ + n);
    let two = one + lines[16];
    lemma_regroup(two, "  escalated "@, c + "/"@ + n);
    assert(is_line(r, 18, lines[18]));
    assert(human_report(r) == two + lines[17] + lines[18]);
    lemma_joined_lines(lines);
}

proof fn lemma_fraction(label: Seq<char>, part: Seq<char>, whole: Seq<char>)
    ensures
        label + part + "/"@ + whole == label + (part + "/"@ + whole),
{
    assert(label + part + "/"@ + whole =~= label + (part + "/"@ + whole));
}

proof fn lemma_joined_lines(lines: Seq<Seq<char>>)
    requires
        lines.len() == 19,
    ensures
        joined_text(lines) == lines[0] + lines[1] + lines[2] + lines[3] + lines[4] + lines[5]
            + lines[6] + lines[7] + lines[8] + lines[9] + lines[10] + lines[11] + lines[12]
            + lines[13] + lines[14] + lines[15] + lines[16] + lines[17] + lines[18],
{
    reveal_with_fuel(joined_text, 20);
    assert(Seq::<char>::empty() + lines[0] =~= lines[0]);
}

} // verus!
