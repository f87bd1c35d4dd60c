//! Calibration: thresholds from labeled samples.

use crate::binary64::Binary64;
use crate::eval::{
    abstain_rate_at_beta, abstained, aurc, by_confidence, compute_aurc, curve_steps, escalated,
    escalation_rate_between, optimal_alpha, optimal_beta, report_on, select_optimal_alpha,
    select_optimal_beta, share, sort_by_confidence, tally, viewed, SampleView, ScoredSample,
};
use crate::config::ThresholdsView;
use crate::evaluator::{law_confidence_is_mean, sum_of, EvaluatorView};
use crate::rounding::{
    lemma_half_even_exact, lemma_nearest_exact, lemma_nearest_monotone, nearest_units, real_of,
    Real64,
};
use vstd::arithmetic::power2::{
    lemma2_to64, lemma_pow2_adds, lemma_pow2_pos, lemma_pow2_strictly_increases, pow2,
};
use vstd::prelude::*;

verus! {

/// A labeled answer with the log probabilities of its tokens.
#[derive(Debug)]
pub struct CalibrationSample {
    pub question: Option<String>,
    pub context: Option<String>,
    pub correct: bool,
    pub logprobs: Vec<Binary64>,
}

#[derive(Debug)]
pub struct CalibrationRequest {
    pub samples: Vec<CalibrationSample>,
    pub target_coverage: Binary64,
}

#[derive(Debug)]
pub struct CalibrationResponse {
    pub optimal_alpha: Binary64,
    pub optimal_beta: Binary64,
    pub aurc_at_target_coverage: Binary64,
    pub abstain_rate: Binary64,
    pub escalation_rate: Binary64,
}

/// What a [`CalibrationResponse`] holds.
pub ghost struct CalibrationView {
    pub optimal_alpha: Real64,
    pub optimal_beta: Real64,
    pub aurc_at_target_coverage: Real64,
    pub abstain_rate: Real64,
    pub escalation_rate: Real64,
}

impl View for CalibrationResponse {
    type V = CalibrationView;

    open spec fn view(&self) -> CalibrationView {
        CalibrationView {
            optimal_alpha: self.optimal_alpha@,
            optimal_beta: self.optimal_beta@,
            aurc_at_target_coverage: self.aurc_at_target_coverage@,
            abstain_rate: self.abstain_rate@,
            escalation_rate: self.escalation_rate@,
        }
    }
}

/// The rounded sum of numbers, taken in order from the negative zero.
pub open spec fn total(numbers: Seq<Binary64>) -> Real64
    decreases numbers.len(),
{
    if numbers.len() == 0 {
        Real64::Finite { negative: true, units: 0 }
    } else {
        total(numbers.drop_last()).plus(numbers.last()@)
    }
}

/// The mean of a sample's log probabilities; below every number where it has
/// none.
pub open spec fn mean(numbers: Seq<Binary64>) -> Real64 {
    if numbers.len() == 0 {
        Real64::Infinite { negative: true }
    } else {
        total(numbers).over(real_of(numbers.len()))
    }
}

/// A sample reduced to its confidence and correctness.
pub open spec fn scored(sample: CalibrationSample) -> SampleView {
    SampleView { confidence: mean(sample.logprobs@), correct: sample.correct }
}

/// All samples reduced.
pub open spec fn all_scored(samples: Seq<CalibrationSample>) -> Seq<SampleView> {
    samples.map_values(|s: CalibrationSample| scored(s))
}

/// The thresholds found on samples, and what they do to them.
pub open spec fn calibration_of(samples: Seq<SampleView>, target: Real64) -> CalibrationView {
    let sorted = by_confidence(samples);
    let n = sorted.len();
    let alpha = optimal_alpha(sorted, target);
    let beta = optimal_beta(sorted, target, alpha);
    CalibrationView {
        optimal_alpha: alpha,
        optimal_beta: beta,
        aurc_at_target_coverage: aurc(sorted, curve_steps(n)),
        abstain_rate: share(tally(sorted, abstained(beta)), n),
        escalation_rate: share(tally(sorted, escalated(alpha, beta)), n),
    }
}

fn mean_of(numbers: &Vec<Binary64>) -> (r: Binary64)
    ensures
        r@ == mean(numbers@),
{
    let n: usize = numbers.len();
    if n == 0 {
        return Binary64::infinity(true);
    }
    let mut sum = Binary64::zero(true);
    let mut i: usize = 0;
    assert(numbers@.take(0) =~= Seq::<Binary64>::empty());
    while i < n
        invariant
            i <= n == numbers@.len(),
            sum@ == total(numbers@.take(i as int)),
        decreases n - i,
    {
        assert(numbers@.take(i + 1).drop_last() =~= numbers@.take(i as int));
        sum = sum.plus(numbers[i]);
        i = i + 1;
    }
    assert(numbers@.take(n as int) =~= numbers@);
    sum.over(Binary64::of(n as u64))
}

/// Returns the thresholds that satisfy the requested coverage, and the rates
/// that they lead to on the samples.
pub fn calibrate_handler(payload: CalibrationRequest) -> (r: CalibrationResponse)
    ensures
        r@ == calibration_of(all_scored(payload.samples@), payload.target_coverage@),
{
    let mut scores: Vec<ScoredSample> = Vec::new();
    let mut i: usize = 0;
    let ghost all = all_scored(payload.samples@);
    assert(viewed(scores@) =~= all.take(0));
    while i < payload.samples.len()
        invariant
            i <= payload.samples@.len(),
            all == all_scored(payload.samples@),
            viewed(scores@) == all.take(i as int),
        decreases payload.samples@.len() - i,
    {
        let sample = &payload.samples[i];
        let score = ScoredSample {
            confidence: mean_of(&sample.logprobs),
            correct: sample.correct,
        };
        let ghost before = viewed(scores@);
        scores.push(score);
        proof {
            assert(viewed(scores@) =~= before.push(score@));
            assert(score@ == all[i as int]);
            assert(viewed(scores@) =~= all.take(i + 1));
        }
        i = i + 1;
    }
    assert(all.take(i as int) =~= all);
    sort_by_confidence(scores.as_mut_slice());
    let sorted = scores.as_slice();
    let n: usize = sorted.len();
    let steps: usize = if n > 100 {
        n
    } else {
        100
    };
    let aurc_at_target_coverage = compute_aurc(sorted, steps);
    let optimal_alpha = select_optimal_alpha(sorted, payload.target_coverage);
    let optimal_beta = select_optimal_beta(sorted, payload.target_coverage, optimal_alpha);
    CalibrationResponse {
        optimal_alpha,
        optimal_beta,
        aurc_at_target_coverage,
        abstain_rate: abstain_rate_at_beta(sorted, optimal_beta),
        escalation_rate: escalation_rate_between(sorted, optimal_alpha, optimal_beta),
    }
}

// ---------------------------------------------------------------------------
// Laws
// ---------------------------------------------------------------------------

/// Calibration and the offline report never disagree: on the same samples and
/// target they find the same thresholds, curve and rates.
pub proof fn law_calibration_agrees_with_report(
    samples: Seq<SampleView>,
    target: Real64,
    dataset: Seq<char>,
)
    ensures
        ({
            let calibration = calibration_of(samples, target);
            let report = report_on(samples, target, dataset);
            &&& calibration.optimal_alpha == report.optimal_alpha
            &&& calibration.optimal_beta == report.optimal_beta
            &&& calibration.aurc_at_target_coverage == report.aurc
            &&& calibration.abstain_rate == report.abstain_rate
            &&& calibration.escalation_rate == report.escalation_rate
        }),
{
}

/// A sample without log probabilities is less confident than any finite number.
pub proof fn law_no_logprobs_no_confidence(sample: CalibrationSample, x: Real64)
    requires
        sample.logprobs@.len() == 0,
        x is Finite,
    ensures
        scored(sample).confidence.lt(x),
{
}

/// Are two numbers the same but for the sign of zero?
pub open spec fn same_value(a: Real64, b: Real64) -> bool {
    a == b || (a is Finite && b is Finite && a->units == 0 && b->units == 0)
}

/// What a list of numbers holds.
pub open spec fn values(numbers: Seq<Binary64>) -> Seq<Real64> {
    numbers.map_values(|x: Binary64| x@)
}

proof fn lemma_totals_agree(numbers: Seq<Binary64>)
    ensures
        same_value(total(numbers), sum_of(values(numbers))),
    decreases numbers.len(),
{
    if numbers.len() > 0 {
        lemma_totals_agree(numbers.drop_last());
        assert(values(numbers).drop_last() =~= values(numbers.drop_last()));
    }
}

/// Calibration and gating measure the same thing: the confidence of a sample is
/// the one that a stream has after the same tokens, but for the sign of zero.
pub proof fn law_calibration_measures_what_gating_does(
    sample: CalibrationSample,
    thresholds: ThresholdsView,
)
    requires
        0 < sample.logprobs@.len() <= usize::MAX,
    ensures
        same_value(
            scored(sample).confidence,
            EvaluatorView::fresh(thresholds).with_all(values(sample.logprobs@)).confidence(),
        ),
        scored(sample).correct == sample.correct,
{
    let numbers = sample.logprobs@;
    lemma_totals_agree(numbers);
    law_confidence_is_mean(thresholds, values(numbers));
    let n = numbers.len();
    lemma_count_is_positive(n);
    let (a, b) = (total(numbers), sum_of(values(numbers)));
    if a != b {
        let q = real_of(n)->units;
        assert(0 * pow2(1074) == 0);
        lemma_half_even_exact(0, q);
        assert(0 < q * 0x20_0000_0000_0000) by (nonlinear_arith)
            requires
                q > 0,
        ;
        assert(nearest_units(0, q) == 0);
        lemma_pow2_pos(2098);
    }
}

proof fn lemma_count_is_positive(n: nat)
    requires
        0 < n <= usize::MAX,
    ensures
        real_of(n) is Finite,
        real_of(n)->units > 0,
        !real_of(n).is_negative(),
{
    let u = pow2(1074);
    lemma_pow2_pos(1074);
    lemma_nearest_exact(1, 1074, 1);
    assert(1 * pow2(1074) * 1 == u);
    assert(n * u >= u) by (nonlinear_arith)
        requires
            n >= 1,
    ;
    lemma_nearest_monotone(u, n * u, 1);
    lemma2_to64();
    lemma_pow2_adds(64, 1074);
    lemma_nearest_exact(1, 1138, 1);
    assert(1 * pow2(1138) * 1 == pow2(1138));
    assert(n * u <= pow2(64) * u) by (nonlinear_arith)
        requires
            n <= pow2(64),
    ;
    lemma_nearest_monotone(n * u, pow2(1138), 1);
    lemma_pow2_strictly_increases(1138, 2098);
}

/// The confidence of a sample is what running sums come to: they start at the
/// negative zero, each log probability is added to the sum before it, and the last
/// is divided by their number.
pub proof fn law_sample_confidence_is_the_mean(sample: CalibrationSample, sums: Seq<Real64>)
    requires
        sample.logprobs@.len() > 0,
        sums.len() == sample.logprobs@.len() + 1,
        sums[0] == (Real64::Finite { negative: true, units: 0 }),
        forall|i: int|
            0 <= i < sample.logprobs@.len() ==> #[trigger] sums[i + 1] == sums[i].plus(
                sample.logprobs@[i]@,
            ),
    ensures
        scored(sample).confidence == sums.last().over(real_of(sample.logprobs@.len())),
{
    lemma_total_of_sums(sample.logprobs@, sums);
}

proof fn lemma_total_of_sums(numbers: Seq<Binary64>, sums: Seq<Real64>)
    requires
        sums.len() == numbers.len() + 1,
        sums[0] == (Real64::Finite { negative: true, units: 0 }),
        forall|i: int|
            0 <= i < numbers.len() ==> #[trigger] sums[i + 1] == sums[i].plus(numbers[i]@),
    ensures
        sums.last() == total(numbers),
    decreases numbers.len(),
{
    if numbers.len() > 0 {
        let (l, s) = (numbers.drop_last(), sums.drop_last());
        assert forall|i: int| 0 <= i < l.len() implies #[trigger] s[i + 1] == s[i].plus(l[i]@) by {
            assert(sums[i + 1] == sums[i].plus(numbers[i]@));
        }
        lemma_total_of_sums(l, s);
        let n = numbers.len() - 1;
        assert(sums[n + 1] == sums[n].plus(numbers[n]@));
    }
}

/// Every sample counts, in the order given; one without log probabilities as minus
/// infinity.
pub proof fn law_samples_are_scored(samples: Seq<CalibrationSample>)
    ensures
        all_scored(samples).len() == samples.len(),
        forall|i: int|
            0 <= i < samples.len() ==> #[trigger] all_scored(samples)[i] == scored(samples[i]),
        forall|i: int|
            0 <= i < samples.len() && samples[i].logprobs@.len() == 0
                ==> #[trigger] all_scored(samples)[i].confidence == (Real64::Infinite {
                negative: true,
            }),
{
}

/// The view shows every field as it is.
pub proof fn law_response_is_seen(r: CalibrationResponse)
    ensures
        r@.optimal_alpha == r.optimal_alpha@,
        r@.optimal_beta == r.optimal_beta@,
        r@.aurc_at_target_coverage == r.aurc_at_target_coverage@,
        r@.abstain_rate == r.abstain_rate@,
        r@.escalation_rate == r.escalation_rate@,
{
}

} // verus!
