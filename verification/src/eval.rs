//! Offline evaluation of labeled samples: the threshold search, the
//! risk-coverage curve and the rates, shared by calibration and by the report.

use crate::binary64::Binary64;
pub use crate::dataset::{load_dataset_file, parse_dataset_str};
use crate::decimal::{
    decimal, fixed_point, fixed_text, number_text, right_aligned, right_aligned_text,
};
use crate::evaluator::positive_zero;
use crate::rounding::{real_of, Real64};
use vstd::prelude::*;
use vstd::slice::slice_to_vec;
use vstd::string::StringExecFns;

verus! {

/// A sample's mean log probability and whether its answer was right.
#[derive(Debug, Clone, Copy)]
pub struct ScoredSample {
    pub confidence: Binary64,
    pub correct: bool,
}

/// What a [`ScoredSample`] holds.
pub ghost struct SampleView {
    pub confidence: Real64,
    pub correct: bool,
}

impl View for ScoredSample {
    type V = SampleView;

    open spec fn view(&self) -> SampleView {
        SampleView { confidence: self.confidence@, correct: self.correct }
    }
}

/// What a sequence of samples holds.
pub open spec fn viewed(samples: Seq<ScoredSample>) -> Seq<SampleView> {
    samples.map_values(|s: ScoredSample| s@)
}

/// The number of samples with a property.
pub open spec fn tally(samples: Seq<SampleView>, has: spec_fn(SampleView) -> bool) -> nat
    decreases samples.len(),
{
    if samples.len() == 0 {
        0
    } else {
        tally(samples.drop_last(), has) + if has(samples.last()) {
            1nat
        } else {
            0nat
        }
    }
}

/// The samples that were right.
pub open spec fn right() -> spec_fn(SampleView) -> bool {
    |s: SampleView| s.correct
}

/// The samples that were wrong.
pub open spec fn wrong() -> spec_fn(SampleView) -> bool {
    |s: SampleView| !s.correct
}

/// The samples that are answered: those with a confidence of alpha or more.
pub open spec fn answered(alpha: Real64) -> spec_fn(SampleView) -> bool {
    |s: SampleView| alpha.le(s.confidence)
}

/// The samples that are abstained on: those with a confidence below beta.
pub open spec fn abstained(beta: Real64) -> spec_fn(SampleView) -> bool {
    |s: SampleView| s.confidence.lt(beta)
}

/// The samples that are escalated: those in between.
pub open spec fn escalated(alpha: Real64, beta: Real64) -> spec_fn(SampleView) -> bool {
    |s: SampleView| beta.le(s.confidence) && s.confidence.lt(alpha)
}

/// A share of the samples; zero where there are none to share.
pub open spec fn share(part: nat, whole: nat) -> Real64 {
    if whole == 0 {
        positive_zero()
    } else {
        real_of(part).over(real_of(whole))
    }
}

proof fn lemma_tally_step(samples: Seq<ScoredSample>, has: spec_fn(SampleView) -> bool, i: int)
    requires
        0 <= i < samples.len(),
    ensures
        tally(viewed(samples).take(i + 1), has) == tally(viewed(samples).take(i), has) + if has(
            samples[i]@,
        ) {
            1nat
        } else {
            0nat
        },
{
    assert(viewed(samples).take(i + 1).drop_last() =~= viewed(samples).take(i));
}

// ---------------------------------------------------------------------------
// Order
// ---------------------------------------------------------------------------

/// `sorted` with `x` put in: before the samples at its end that are less
/// confident, after all others.
pub open spec fn inserted(sorted: Seq<SampleView>, x: SampleView) -> Seq<SampleView>
    decreases sorted.len(),
{
    if sorted.len() > 0 && sorted.last().confidence.lt(x.confidence) {
        inserted(sorted.drop_last(), x).push(sorted.last())
    } else {
        sorted.push(x)
    }
}

/// The samples in descending order of confidence, equally confident ones in the
/// order they came in.
pub open spec fn by_confidence(samples: Seq<SampleView>) -> Seq<SampleView>
    decreases samples.len(),
{
    if samples.len() == 0 {
        samples
    } else {
        inserted(by_confidence(samples.drop_last()), samples.last())
    }
}

/// Sorts descending by confidence: the most confident samples are answered
/// first. Equally confident samples keep their order; a confidence that is not a
/// number counts as equal to any other.
pub fn sort_by_confidence(samples: &mut [ScoredSample])
    ensures
        viewed(final(samples)@) == by_confidence(viewed(old(samples)@)),
{
    let ghost all = viewed(samples@);
    let n: usize = samples.len();
    let mut i: usize = 0;
    assert(by_confidence(all.take(0)) =~= Seq::<SampleView>::empty());
    while i < n
        invariant
            i <= n == samples@.len() == all.len(),
            viewed(samples@) == by_confidence(all.take(i as int)) + all.skip(i as int),
            by_confidence(all.take(i as int)).len() == i,
        decreases n - i,
    {
        let ghost sorted = by_confidence(all.take(i as int));
        let x = samples[i];
        let mut j: usize = i;
        proof {
            assert(viewed(samples@)[i as int] == all[i as int]);
            assert(all.take(i + 1).drop_last() =~= all.take(i as int));
            assert(by_confidence(all.take(i + 1)) == inserted(sorted, all[i as int]));
            assert(sorted.take(i as int) =~= sorted);
            assert(sorted.skip(i as int) =~= Seq::<SampleView>::empty());
            assert(inserted(sorted, x@) =~= inserted(sorted.take(i as int), x@) + sorted.skip(
                i as int,
            ));
            assert(viewed(samples@) =~= sorted.take(j as int) + seq![x@] + sorted.skip(j as int)
                + all.skip(i + 1));
        }
        while j > 0 && samples[j - 1].confidence.less_than(x.confidence)
            invariant
                j <= i < n == samples@.len() == all.len(),
                sorted.len() == i,
                viewed(samples@) == sorted.take(j as int) + seq![x@] + sorted.skip(j as int)
                    + all.skip(i + 1),
                inserted(sorted, x@) == inserted(sorted.take(j as int), x@) + sorted.skip(j as int),
            decreases j,
        {
            let y = samples[j - 1];
            proof {
                let v = viewed(samples@);
                assert(v[j - 1] == sorted[j - 1]);
                assert(v[j - 1] == y@);
                let s = sorted.take(j as int);
                assert(s.drop_last() =~= sorted.take(j - 1));
                assert(s.last() == y@);
                assert(inserted(s, x@) + sorted.skip(j as int) =~= inserted(sorted.take(j - 1), x@)
                    + sorted.skip(j - 1));
            }
            let ghost before = viewed(samples@);
            samples[j - 1] = x;
            samples[j] = y;
            j = j - 1;
            assert(viewed(samples@) =~= before.update(j as int, x@).update(j + 1, y@));
            assert(viewed(samples@) =~= sorted.take(j as int) + seq![x@] + sorted.skip(j as int)
                + all.skip(i + 1));
        }
        proof {
            let s = sorted.take(j as int);
            if j > 0 {
                assert(viewed(samples@)[j - 1] == sorted[j - 1]);
                assert(s.last() == samples@[j - 1]@);
            }
            assert(inserted(s, x@) == s.push(x@));
            assert(viewed(samples@) =~= by_confidence(all.take(i + 1)) + all.skip(i + 1));
        }
        i = i + 1;
    }
    assert(all.take(n as int) =~= all);
    assert(viewed(samples@) =~= by_confidence(all));
}

// ---------------------------------------------------------------------------
// Counting
// ---------------------------------------------------------------------------

fn count_right(samples: &[ScoredSample]) -> (r: usize)
    ensures
        r == tally(viewed(samples@), right()),
        r <= samples@.len(),
{
    let mut r: usize = 0;
    let mut i: usize = 0;
    assert(viewed(samples@).take(0) =~= Seq::<SampleView>::empty());
    while i < samples.len()
        invariant
            i <= samples@.len(),
            r == tally(viewed(samples@).take(i as int), right()),
            r <= i,
        decreases samples@.len() - i,
    {
        proof {
            lemma_tally_step(samples@, right(), i as int);
        }
        if samples[i].correct {
            r = r + 1;
        }
        i = i + 1;
    }
    assert(viewed(samples@).take(samples@.len() as int) =~= viewed(samples@));
    r
}

/// The number of wrong samples among the first `kept`.
fn count_wrong(samples: &[ScoredSample], kept: usize) -> (r: usize)
    requires
        kept <= samples@.len(),
    ensures
        r == tally(viewed(samples@).take(kept as int), wrong()),
        r <= kept,
{
    let mut r: usize = 0;
    let mut i: usize = 0;
    assert(viewed(samples@).take(0) =~= Seq::<SampleView>::empty());
    while i < kept
        invariant
            i <= kept <= samples@.len(),
            r == tally(viewed(samples@).take(i as int), wrong()),
            r <= i,
        decreases kept - i,
    {
        proof {
            lemma_tally_step(samples@, wrong(), i as int);
        }
        if !samples[i].correct {
            r = r + 1;
        }
        i = i + 1;
    }
    r
}

/// The answered samples whose answer was wrong.
pub open spec fn answered_wrong(alpha: Real64) -> spec_fn(SampleView) -> bool {
    |s: SampleView| alpha.le(s.confidence) && !s.correct
}

/// The number of answered samples, and of wrong ones among them.
fn count_answered(samples: &[ScoredSample], alpha: Binary64) -> (r: (usize, usize))
    ensures
        r.0 == tally(viewed(samples@), answered(alpha@)),
        r.1 == tally(viewed(samples@), answered_wrong(alpha@)),
        r.1 <= r.0 <= samples@.len(),
{
    let mut hit: usize = 0;
    let mut bad: usize = 0;
    let mut i: usize = 0;
    assert(viewed(samples@).take(0) =~= Seq::<SampleView>::empty());
    while i < samples.len()
        invariant
            i <= samples@.len(),
            hit == tally(viewed(samples@).take(i as int), answered(alpha@)),
            bad == tally(viewed(samples@).take(i as int), answered_wrong(alpha@)),
            bad <= hit <= i,
        decreases samples@.len() - i,
    {
        proof {
            lemma_tally_step(samples@, answered(alpha@), i as int);
            lemma_tally_step(samples@, answered_wrong(alpha@), i as int);
        }
        if alpha.at_most(samples[i].confidence) {
            hit = hit + 1;
            if !samples[i].correct {
                bad = bad + 1;
            }
        }
        i = i + 1;
    }
    assert(viewed(samples@).take(samples@.len() as int) =~= viewed(samples@));
    (hit, bad)
}

/// The abstained samples whose answer was right.
pub open spec fn abstained_right(beta: Real64) -> spec_fn(SampleView) -> bool {
    |s: SampleView| s.confidence.lt(beta) && s.correct
}

/// The number of abstained samples, and of right ones among them.
fn count_abstained(samples: &[ScoredSample], beta: Binary64) -> (r: (usize, usize))
    ensures
        r.0 == tally(viewed(samples@), abstained(beta@)),
        r.1 == tally(viewed(samples@), abstained_right(beta@)),
        r.1 <= r.0 <= samples@.len(),
{
    let mut hit: usize = 0;
    let mut good: usize = 0;
    let mut i: usize = 0;
    assert(viewed(samples@).take(0) =~= Seq::<SampleView>::empty());
    while i < samples.len()
        invariant
            i <= samples@.len(),
            hit == tally(viewed(samples@).take(i as int), abstained(beta@)),
            good == tally(viewed(samples@).take(i as int), abstained_right(beta@)),
            good <= hit <= i,
        decreases samples@.len() - i,
    {
        proof {
            lemma_tally_step(samples@, abstained(beta@), i as int);
            lemma_tally_step(samples@, abstained_right(beta@), i as int);
        }
        if samples[i].confidence.less_than(beta) {
            hit = hit + 1;
            if samples[i].correct {
                good = good + 1;
            }
        }
        i = i + 1;
    }
    assert(viewed(samples@).take(samples@.len() as int) =~= viewed(samples@));
    (hit, good)
}

fn count_escalated(samples: &[ScoredSample], alpha: Binary64, beta: Binary64) -> (r: usize)
    ensures
        r == tally(viewed(samples@), escalated(alpha@, beta@)),
        r <= samples@.len(),
{
    let mut hit: usize = 0;
    let mut i: usize = 0;
    assert(viewed(samples@).take(0) =~= Seq::<SampleView>::empty());
    while i < samples.len()
        invariant
            i <= samples@.len(),
            hit == tally(viewed(samples@).take(i as int), escalated(alpha@, beta@)),
            hit <= i,
        decreases samples@.len() - i,
    {
        proof {
            lemma_tally_step(samples@, escalated(alpha@, beta@), i as int);
        }
        if beta.at_most(samples[i].confidence) && samples[i].confidence.less_than(alpha) {
            hit = hit + 1;
        }
        i = i + 1;
    }
    assert(viewed(samples@).take(samples@.len() as int) =~= viewed(samples@));
    hit
}

fn share_of(part: usize, whole: usize) -> (r: Binary64)
    ensures
        r@ == share(part as nat, whole as nat),
{
    if whole == 0 {
        Binary64::zero(false)
    } else {
        Binary64::ratio(part as u64, whole as u64)
    }
}

// ---------------------------------------------------------------------------
// Risk and coverage
// ---------------------------------------------------------------------------

/// How many of `n` samples a coverage keeps: the nearest number, but at least
/// one and at most all.
pub open spec fn kept_count(n: nat, coverage: Real64) -> nat {
    let k = coverage.times(real_of(n)).round_clamped(usize::MAX as nat);
    if n <= 1 || k <= 1 {
        if n == 0 {
            0
        } else {
            1
        }
    } else if k < n {
        k
    } else {
        n
    }
}

/// The share of wrong samples among the first ones that a coverage keeps.
pub open spec fn risk(samples: Seq<SampleView>, coverage: Real64) -> Real64 {
    let kept = kept_count(samples.len(), coverage);
    share(tally(samples.take(kept as int), wrong()), kept)
}

fn kept_of(n: usize, coverage: Binary64) -> (r: usize)
    ensures
        r == kept_count(n as nat, coverage@),
        r <= n,
        n > 0 ==> r > 0,
{
    let k: u64 = coverage.times(Binary64::of(n as u64)).round_clamped(usize::MAX as u64);
    if n == 0 {
        0
    } else if n == 1 || k <= 1 {
        1
    } else if k < n as u64 {
        k as usize
    } else {
        n
    }
}

/// Risk at a given coverage, of samples sorted descending by confidence: keeps
/// the leading `coverage` of them and measures the error rate among those.
pub fn risk_at_coverage(samples: &[ScoredSample], coverage: Binary64) -> (r: Binary64)
    ensures
        r@ == risk(viewed(samples@), coverage@),
{
    let kept = kept_of(samples.len(), coverage);
    share_of(count_wrong(samples, kept), kept)
}

/// The `i`-th of `steps` evenly spaced coverages.
pub open spec fn coverage_step(i: nat, steps: nat) -> Real64 {
    if i == 0 {
        positive_zero()
    } else {
        real_of(i).over(real_of(steps))
    }
}

/// The risk at the `i`-th coverage; the curve starts at that of one sample.
pub open spec fn risk_step(samples: Seq<SampleView>, i: nat, steps: nat) -> Real64 {
    if i == 0 {
        risk(samples, real_of(1).over(real_of(samples.len())))
    } else {
        risk(samples, coverage_step(i, steps))
    }
}

/// The area under the risk-coverage curve up to the `i`-th of `steps`
/// coverages, by trapezoids.
pub open spec fn area(samples: Seq<SampleView>, i: nat, steps: nat) -> Real64
    decreases i,
{
    if i == 0 {
        positive_zero()
    } else {
        let j = (i - 1) as nat;
        let height = risk_step(samples, i, steps).plus(risk_step(samples, j, steps)).over(
            real_of(2),
        );
        let width = coverage_step(i, steps).minus(coverage_step(j, steps));
        area(samples, j, steps).plus(height.times(width))
    }
}

/// The area under the whole curve; zero where there are no samples.
pub open spec fn aurc(samples: Seq<SampleView>, steps: nat) -> Real64 {
    if samples.len() == 0 {
        positive_zero()
    } else {
        area(samples, steps, steps)
    }
}

/// Computes the area under the risk-coverage curve of samples sorted descending
/// by confidence, by trapezoids over `steps` coverages from 0 to 1.
pub fn compute_aurc(samples: &[ScoredSample], steps: usize) -> (r: Binary64)
    ensures
        r@ == aurc(viewed(samples@), steps as nat),
{
    if samples.len() == 0 {
        return Binary64::zero(false);
    }
    let ghost s = viewed(samples@);
    let mut total = Binary64::zero(false);
    let mut prev_coverage = Binary64::zero(false);
    let mut prev_risk = risk_at_coverage(samples, Binary64::ratio(1, samples.len() as u64));
    let mut i: usize = 0;
    while i < steps
        invariant
            i <= steps,
            s == viewed(samples@),
            total@ == area(s, i as nat, steps as nat),
            prev_coverage@ == coverage_step(i as nat, steps as nat),
            prev_risk@ == risk_step(s, i as nat, steps as nat),
        decreases steps - i,
    {
        i = i + 1;
        let coverage = Binary64::ratio(i as u64, steps as u64);
        let risk = risk_at_coverage(samples, coverage);
        let height = risk.plus(prev_risk).over(Binary64::of(2));
        total = total.plus(height.times(coverage.minus(prev_coverage)));
        prev_coverage = coverage;
        prev_risk = risk;
    }
    total
}

// ---------------------------------------------------------------------------
// Thresholds
// ---------------------------------------------------------------------------

/// The confidence of the last sample that the target coverage keeps; -0.5 where
/// there are no samples.
pub open spec fn optimal_alpha(sorted: Seq<SampleView>, target: Real64) -> Real64 {
    if sorted.len() == 0 {
        real_of(1).over(real_of(2)).neg()
    } else {
        sorted[kept_count(sorted.len(), target) - 1].confidence
    }
}

/// The last of the first `k` samples up to which risk is at most twice that at
/// the target coverage.
pub open spec fn tolerable_up_to(sorted: Seq<SampleView>, target: Real64, k: nat) -> Option<nat>
    decreases k,
{
    if k == 0 {
        None
    } else if risk(sorted, real_of(k).over(real_of(sorted.len()))).le(
        risk(sorted, target).times(real_of(2)),
    ) {
        Some((k - 1) as nat)
    } else {
        tolerable_up_to(sorted, target, (k - 1) as nat)
    }
}

/// Alpha less 0.7, where there are too few samples to do better.
pub open spec fn offset_beta(alpha: Real64) -> Real64 {
    alpha.minus(real_of(7).over(real_of(10)))
}

/// The confidence of the last sample up to which risk is tolerable.
pub open spec fn optimal_beta(
    sorted: Seq<SampleView>,
    target: Real64,
    alpha: Real64,
) -> Real64 {
    if sorted.len() >= 5 {
        match tolerable_up_to(sorted, target, sorted.len()) {
            Some(i) => sorted[i as int].confidence,
            None => offset_beta(alpha),
        }
    } else {
        offset_beta(alpha)
    }
}

/// The confidence threshold that answers the target share of the samples, which
/// are sorted descending by confidence.
pub fn select_optimal_alpha(sorted: &[ScoredSample], target_coverage: Binary64) -> (r: Binary64)
    ensures
        r@ == optimal_alpha(viewed(sorted@), target_coverage@),
{
    let n: usize = sorted.len();
    if n > 0 {
        let kept = kept_of(n, target_coverage);
        sorted[kept - 1].confidence
    } else {
        Binary64::ratio(1, 2).neg()
    }
}

/// The confidence below which risk exceeds twice that at the target coverage:
/// everything below is abstained on rather than escalated.
pub fn select_optimal_beta(
    sorted: &[ScoredSample],
    target_coverage: Binary64,
    alpha: Binary64,
) -> (r: Binary64)
    ensures
        r@ == optimal_beta(viewed(sorted@), target_coverage@, alpha@),
{
    let n: usize = sorted.len();
    let ghost s = viewed(sorted@);
    let limit = risk_at_coverage(sorted, target_coverage).times(Binary64::of(2));
    if n >= 5 {
        let mut k: usize = n;
        while k > 0
            invariant
                k <= n == sorted@.len(),
                n >= 5,
                s == viewed(sorted@),
                limit@ == risk(s, target_coverage@).times(real_of(2)),
                tolerable_up_to(s, target_coverage@, n as nat) == tolerable_up_to(
                    s,
                    target_coverage@,
                    k as nat,
                ),
            decreases k,
        {
            let coverage = Binary64::ratio(k as u64, n as u64);
            if risk_at_coverage(sorted, coverage).at_most(limit) {
                return sorted[k - 1].confidence;
            }
            k = k - 1;
        }
    }
    alpha.minus(Binary64::ratio(7, 10))
}

/// Is this a share of the samples that can be answered? At least one always is.
pub open spec fn valid_coverage(coverage: Real64) -> bool {
    positive_zero().lt(coverage) && coverage.le(real_of(1))
}

/// Checks a target coverage. Its text, for the message, is given with it.
pub fn check_target_coverage(coverage: Binary64, text: &str) -> (r: Result<(), String>)
    ensures
        match r {
            Ok(_) => valid_coverage(coverage@),
            Err(message) => !valid_coverage(coverage@) && message@
                == "invalid --target-coverage "@ + text@ + ": must satisfy 0 < c <= 1"@,
        },
{
    if Binary64::zero(false).less_than(coverage) && coverage.at_most(Binary64::of(1)) {
        Ok(())
    } else {
        let mut message = "invalid --target-coverage ".to_owned();
        message.append(text);
        message.append(": must satisfy 0 < c <= 1");
        Err(message)
    }
}

// ---------------------------------------------------------------------------
// Rates
// ---------------------------------------------------------------------------

/// Overall accuracy: the share of samples that were right.
pub fn compute_accuracy(samples: &[ScoredSample]) -> (r: Binary64)
    ensures
        r@ == share(tally(viewed(samples@), right()), samples@.len()),
{
    share_of(count_right(samples), samples.len())
}

/// Coverage at a threshold: the share of samples that are answered.
pub fn coverage_at_alpha(samples: &[ScoredSample], alpha: Binary64) -> (r: Binary64)
    ensures
        r@ == share(tally(viewed(samples@), answered(alpha@)), samples@.len()),
{
    share_of(count_answered(samples, alpha).0, samples.len())
}

/// False-accept rate: the share of the answered samples that were wrong.
pub fn false_accept_rate(samples: &[ScoredSample], alpha: Binary64) -> (r: Binary64)
    ensures
        r@ == share(
            tally(viewed(samples@), answered_wrong(alpha@)),
            tally(viewed(samples@), answered(alpha@)),
        ),
{
    let counts = count_answered(samples, alpha);
    share_of(counts.1, counts.0)
}

/// False-abstain rate: the share of the abstained samples that were right.
pub fn false_abstain_rate(samples: &[ScoredSample], beta: Binary64) -> (r: Binary64)
    ensures
        r@ == share(
            tally(viewed(samples@), abstained_right(beta@)),
            tally(viewed(samples@), abstained(beta@)),
        ),
{
    let counts = count_abstained(samples, beta);
    share_of(counts.1, counts.0)
}

/// Abstain rate: the share of samples that are abstained on.
pub fn abstain_rate_at_beta(samples: &[ScoredSample], beta: Binary64) -> (r: Binary64)
    ensures
        r@ == share(tally(viewed(samples@), abstained(beta@)), samples@.len()),
{
    share_of(count_abstained(samples, beta).0, samples.len())
}

/// Escalation rate: the share of samples between the two thresholds.
pub fn escalation_rate_between(samples: &[ScoredSample], alpha: Binary64, beta: Binary64) -> (r:
    Binary64)
    ensures
        r@ == share(tally(viewed(samples@), escalated(alpha@, beta@)), samples@.len()),
{
    share_of(count_escalated(samples, alpha, beta), samples.len())
}

// ---------------------------------------------------------------------------
// Report
// ---------------------------------------------------------------------------

/// The offline evaluation of one dataset at one target coverage.
#[derive(Debug, Clone)]
pub struct EvalReport {
    pub dataset: String,
    pub target_coverage: Binary64,
    pub n: usize,
    pub n_correct: usize,
    pub accuracy: Binary64,
    pub optimal_alpha: Binary64,
    pub optimal_beta: Binary64,
    pub coverage: Binary64,
    pub risk: Binary64,
    pub aurc: Binary64,
    pub false_accept_rate: Binary64,
    pub false_abstain_rate: Binary64,
    pub abstain_rate: Binary64,
    pub escalation_rate: Binary64,
    pub n_answered: usize,
    pub n_abstained: usize,
    pub n_escalated: usize,
}

/// What an [`EvalReport`] holds.
#[verifier::ext_equal]
pub ghost struct ReportView {
    pub dataset: Seq<char>,
    pub target_coverage: Real64,
    pub n: nat,
    pub n_correct: nat,
    pub accuracy: Real64,
    pub optimal_alpha: Real64,
    pub optimal_beta: Real64,
    pub coverage: Real64,
    pub risk: Real64,
    pub aurc: Real64,
    pub false_accept_rate: Real64,
    pub false_abstain_rate: Real64,
    pub abstain_rate: Real64,
    pub escalation_rate: Real64,
    pub n_answered: nat,
    pub n_abstained: nat,
    pub n_escalated: nat,
}

impl View for EvalReport {
    type V = ReportView;

    open spec fn view(&self) -> ReportView {
        ReportView {
            dataset: self.dataset@,
            target_coverage: self.target_coverage@,
            n: self.n as nat,
            n_correct: self.n_correct as nat,
            accuracy: self.accuracy@,
            optimal_alpha: self.optimal_alpha@,
            optimal_beta: self.optimal_beta@,
            coverage: self.coverage@,
            risk: self.risk@,
            aurc: self.aurc@,
            false_accept_rate: self.false_accept_rate@,
            false_abstain_rate: self.false_abstain_rate@,
            abstain_rate: self.abstain_rate@,
            escalation_rate: self.escalation_rate@,
            n_answered: self.n_answered as nat,
            n_abstained: self.n_abstained as nat,
            n_escalated: self.n_escalated as nat,
        }
    }
}

/// The number of coverages that the curve of `n` samples is sampled at.
pub open spec fn curve_steps(n: nat) -> nat {
    if n > 100 {
        n
    } else {
        100
    }
}

/// The report on samples: thresholds found on the samples in order of
/// confidence, and every rate at those thresholds.
pub open spec fn report_on(
    samples: Seq<SampleView>,
    target: Real64,
    dataset: Seq<char>,
) -> ReportView {
    let sorted = by_confidence(samples);
    let n = sorted.len();
    let alpha = optimal_alpha(sorted, target);
    let beta = optimal_beta(sorted, target, alpha);
    let n_answered = tally(sorted, answered(alpha));
    let n_abstained = tally(sorted, abstained(beta));
    let false_accepts = share(tally(sorted, answered_wrong(alpha)), n_answered);
    ReportView {
        dataset,
        target_coverage: target,
        n,
        n_correct: tally(sorted, right()),
        accuracy: share(tally(sorted, right()), n),
        optimal_alpha: alpha,
        optimal_beta: beta,
        coverage: share(n_answered, n),
        risk: false_accepts,
        aurc: aurc(sorted, curve_steps(n)),
        false_accept_rate: false_accepts,
        false_abstain_rate: share(tally(sorted, abstained_right(beta)), n_abstained),
        abstain_rate: share(n_abstained, n),
        escalation_rate: share(tally(sorted, escalated(alpha, beta)), n),
        n_answered,
        n_abstained,
        n_escalated: if n_answered + n_abstained <= n {
            (n - n_answered - n_abstained) as nat
        } else {
            0
        },
    }
}

/// Builds the full report from samples in any order.
pub fn build_report(
    samples: &[ScoredSample],
    target_coverage: Binary64,
    dataset: &str,
) -> (r: EvalReport)
    ensures
        r@ == report_on(viewed(samples@), target_coverage@, dataset@),
{
    let mut all = slice_to_vec(samples);
    sort_by_confidence(all.as_mut_slice());
    let sorted = all.as_slice();
    let n: usize = sorted.len();
    let n_correct = count_right(sorted);
    let alpha = select_optimal_alpha(sorted, target_coverage);
    let beta = select_optimal_beta(sorted, target_coverage, alpha);
    let n_answered = count_answered(sorted, alpha).0;
    let n_abstained = count_abstained(sorted, beta).0;
    let steps: usize = if n > 100 {
        n
    } else {
        100
    };
    let far = false_accept_rate(sorted, alpha);
    EvalReport {
        dataset: dataset.to_owned(),
        target_coverage,
        n,
        n_correct,
        accuracy: compute_accuracy(sorted),
        optimal_alpha: alpha,
        optimal_beta: beta,
        coverage: coverage_at_alpha(sorted, alpha),
        risk: far,
        aurc: compute_aurc(sorted, steps),
        false_accept_rate: far,
        false_abstain_rate: false_abstain_rate(sorted, beta),
        abstain_rate: abstain_rate_at_beta(sorted, beta),
        escalation_rate: escalation_rate_between(sorted, alpha, beta),
        n_answered,
        n_abstained,
        n_escalated: if n_abstained <= n - n_answered {
            n - n_answered - n_abstained
        } else {
            0
        },
    }
}

/// The line above and below the table.
pub open spec fn rule() -> Seq<char> {
    "+--------------------+----------+\n"@
}

/// A line of the table.
pub open spec fn row(label: Seq<char>, value: Seq<char>) -> Seq<char> {
    label + right_aligned(value, 8) + " |\n"@
}

/// A part of a whole, as two numbers.
pub open spec fn fraction(part: nat, whole: nat) -> Seq<char> {
    decimal(part) + "/"@ + decimal(whole)
}

/// The report as a table: counts as they are, rates with four decimal places.
pub open spec fn human_report(r: ReportView) -> Seq<char> {
    "rag-gate evaluate: "@ + r.dataset + "\ntarget coverage: "@ + fixed_point(r.target_coverage, 2) + "\n"@
        + rule() + row("| n                  | "@, decimal(r.n)) + row("| n_correct          | "@, decimal(r.n_correct))
        + row("| accuracy           | "@, fixed_point(r.accuracy, 4))
        + row("| optimal_alpha      | "@, fixed_point(r.optimal_alpha, 4))
        + row("| optimal_beta       | "@, fixed_point(r.optimal_beta, 4))
        + row("| coverage           | "@, fixed_point(r.coverage, 4))
        + row("| risk               | "@, fixed_point(r.risk, 4))
        + row("| aurc               | "@, fixed_point(r.aurc, 4))
        + row("| false_accept_rate  | "@, fixed_point(r.false_accept_rate, 4))
        + row("| false_abstain_rate | "@, fixed_point(r.false_abstain_rate, 4))
        + row("| abstain_rate       | "@, fixed_point(r.abstain_rate, 4))
        + row("| escalation_rate    | "@, fixed_point(r.escalation_rate, 4))
        + rule() + "answered "@ + fraction(r.n_answered, r.n) + "  abstained "@ + fraction(r.n_abstained, r.n)
        + "  escalated "@ + fraction(r.n_escalated, r.n)
        + "\n(risk == false_accept_rate under threshold gating: both are the error\nrate among the answered set.)"@
}

fn rule_text() -> (r: &'static str)
    ensures
        r@ == rule(),
{
    "+--------------------+----------+\n"
}

fn row_text(label: &str, value: &str) -> (r: String)
    ensures
        r@ == row(label@, value@),
{
    let mut r = label.to_owned();
    r.append(right_aligned_text(value, 8).as_str());
    r.append(" |\n");
    r
}

fn count_row(label: &str, value: usize) -> (r: String)
    ensures
        r@ == row(label@, decimal(value as nat)),
{
    row_text(label, number_text(value as u128).as_str())
}

fn rate_row(label: &str, value: Binary64) -> (r: String)
    ensures
        r@ == row(label@, fixed_point(value@, 4)),
{
    row_text(label, fixed_text(value, 4).as_str())
}

fn fraction_text(part: usize, whole: usize) -> (r: String)
    ensures
        r@ == fraction(part as nat, whole as nat),
{
    let mut r = number_text(part as u128);
    r.append("/");
    r.append(number_text(whole as u128).as_str());
    r
}

/// The report as a table for people to read.
pub fn format_human_report(r: &EvalReport) -> (text: String)
    ensures
        text@ == human_report(r@),
{
    let mut text = "rag-gate evaluate: ".to_owned();
    text.append(r.dataset.as_str());
    text.append("\ntarget coverage: ");
    text.append(fixed_text(r.target_coverage, 2).as_str());
    text.append("\n");
    text.append(rule_text());
    text.append(count_row("| n                  | ", r.n).as_str());
    text.append(count_row("| n_correct          | ", r.n_correct).as_str());
    text.append(rate_row("| accuracy           | ", r.accuracy).as_str());
    text.append(rate_row("| optimal_alpha      | ", r.optimal_alpha).as_str());
    text.append(rate_row("| optimal_beta       | ", r.optimal_beta).as_str());
    text.append(rate_row("| coverage           | ", r.coverage).as_str());
    text.append(rate_row("| risk               | ", r.risk).as_str());
    text.append(rate_row("| aurc               | ", r.aurc).as_str());
    text.append(rate_row("| false_accept_rate  | ", r.false_accept_rate).as_str());
    text.append(rate_row("| false_abstain_rate | ", r.false_abstain_rate).as_str());
    text.append(rate_row("| abstain_rate       | ", r.abstain_rate).as_str());
    text.append(rate_row("| escalation_rate    | ", r.escalation_rate).as_str());
    text.append(rule_text());
    text.append("answered ");
    text.append(fraction_text(r.n_answered, r.n).as_str());
    text.append("  abstained ");
    text.append(fraction_text(r.n_abstained, r.n).as_str());
    text.append("  escalated ");
    text.append(fraction_text(r.n_escalated, r.n).as_str());
    text.append(
        "\n(risk == false_accept_rate under threshold gating: both are the error\nrate among the answered set.)",
    );
    text
}

} // verus!
