//! The running confidence of one stream, and what it decides.

use crate::binary64::Binary64;
use crate::config::{GatingThresholds, ThresholdsView};
use crate::rounding::{real_of, Real64};
use vstd::prelude::*;

verus! {

/// Number of evaluated tokens before a signal can be found degenerate.
pub const DEGENERATE_MIN_TOKENS: usize = 16;

/// What to do with a stream.
#[derive(Debug, Clone, Copy, PartialEq, Eq, Structural)]
pub enum Decision {
    Answer,
    Abstain,
    Escalate,
}

/// The log probabilities seen so far, summed, and the thresholds to hold their
/// mean against.
#[derive(Debug)]
pub struct ConfidenceEvaluator {
    thresholds: GatingThresholds,
    sum_logprobs: Binary64,
    count: usize,
}

/// What a [`ConfidenceEvaluator`] holds.
pub ghost struct EvaluatorView {
    pub thresholds: ThresholdsView,
    pub sum: Real64,
    pub count: nat,
}

/// The positive zero.
pub open spec fn positive_zero() -> Real64 {
    Real64::Finite { negative: false, units: 0 }
}

/// -0.01: a mean above this after [`DEGENERATE_MIN_TOKENS`] tokens says that
/// every token had a probability of about 0.99 or more.
pub open spec fn degenerate_mean() -> Real64 {
    real_of(1).over(real_of(100)).neg()
}

/// A number of tokens, one more. It stays at the largest that can be counted.
pub open spec fn one_more(count: nat) -> nat {
    if count < usize::MAX {
        count + 1
    } else {
        count
    }
}

impl EvaluatorView {
    /// Before any token.
    pub open spec fn fresh(thresholds: ThresholdsView) -> EvaluatorView {
        EvaluatorView { thresholds, sum: positive_zero(), count: 0 }
    }

    /// After one more token.
    pub open spec fn with(self, logprob: Real64) -> EvaluatorView {
        EvaluatorView { sum: self.sum.plus(logprob), count: one_more(self.count), ..self }
    }

    /// After the tokens of a whole sequence.
    pub open spec fn with_all(self, logprobs: Seq<Real64>) -> EvaluatorView
        decreases logprobs.len(),
    {
        if logprobs.len() == 0 {
            self
        } else {
            self.with_all(logprobs.drop_last()).with(logprobs.last())
        }
    }

    /// The mean log probability; zero before any token.
    pub open spec fn confidence(self) -> Real64 {
        if self.count == 0 {
            positive_zero()
        } else {
            self.sum.over(real_of(self.count))
        }
    }

    /// Answer below the warmup floor, or with a confidence of alpha or more;
    /// abstain below beta; escalate in between.
    pub open spec fn decision(self) -> Decision {
        if self.count < self.thresholds.min_tokens {
            Decision::Answer
        } else if self.thresholds.answer_alpha.le(self.confidence()) {
            Decision::Answer
        } else if self.confidence().lt(self.thresholds.abstain_beta) {
            Decision::Abstain
        } else {
            Decision::Escalate
        }
    }

    /// Is the signal too perfect to trust?
    pub open spec fn degenerate(self) -> bool {
        &&& self.thresholds.degenerate_guard
        &&& self.count >= DEGENERATE_MIN_TOKENS
        &&& degenerate_mean().lt(self.confidence())
    }
}

impl View for ConfidenceEvaluator {
    type V = EvaluatorView;

    closed spec fn view(&self) -> EvaluatorView {
        EvaluatorView {
            thresholds: self.thresholds@,
            sum: self.sum_logprobs@,
            count: self.count as nat,
        }
    }
}

impl ConfidenceEvaluator {
    pub fn new(thresholds: GatingThresholds) -> (r: Self)
        ensures
            r@ == EvaluatorView::fresh(thresholds@),
    {
        ConfidenceEvaluator { thresholds, sum_logprobs: Binary64::zero(false), count: 0 }
    }

    /// Takes one more log probability in and returns the confidence with it.
    pub fn add_logprob(&mut self, logprob: Binary64) -> (r: Binary64)
        ensures
            final(self)@ == old(self)@.with(logprob@),
            r@ == final(self)@.confidence(),
    {
        self.sum_logprobs = self.sum_logprobs.plus(logprob);
        if self.count < usize::MAX {
            self.count = self.count + 1;
        }
        self.current_confidence()
    }

    /// The mean log probability so far.
    pub fn current_confidence(&self) -> (r: Binary64)
        ensures
            r@ == self@.confidence(),
    {
        if self.count == 0 {
            Binary64::zero(false)
        } else {
            self.sum_logprobs.over(Binary64::of(self.count as u64))
        }
    }

    pub fn evaluate(&self) -> (r: Decision)
        ensures
            r == self@.decision(),
    {
        if self.count < self.thresholds.min_tokens {
            return Decision::Answer;
        }
        let confidence = self.current_confidence();
        if self.thresholds.answer_alpha.at_most(confidence) {
            Decision::Answer
        } else if confidence.less_than(self.thresholds.abstain_beta) {
            Decision::Abstain
        } else {
            Decision::Escalate
        }
    }

    /// The number of tokens evaluated.
    pub fn count(&self) -> (r: usize)
        ensures
            r == self@.count,
    {
        self.count
    }

    /// Is the signal too perfect to trust? At temperature 0 the reported log
    /// probability of every chosen token is about zero, so the mean never leaves
    /// its neighborhood and gating would pass every response unnoticed.
    pub fn is_degenerate(&self) -> (r: bool)
        ensures
            r == self@.degenerate(),
    {
        self.thresholds.degenerate_guard && self.count >= DEGENERATE_MIN_TOKENS
            && Binary64::ratio(1, 100).neg().less_than(self.current_confidence())
    }

    pub fn thresholds(&self) -> (r: &GatingThresholds)
        ensures
            r@ == self@.thresholds,
    {
        &self.thresholds
    }
}

// ---------------------------------------------------------------------------
// Laws
// ---------------------------------------------------------------------------

/// Taking two sequences of tokens in one after the other is taking in their
/// concatenation.
pub proof fn law_tokens_in_order(e: EvaluatorView, a: Seq<Real64>, b: Seq<Real64>)
    ensures
        e.with_all(a).with_all(b) == e.with_all(a + b),
    decreases b.len(),
{
    if b.len() == 0 {
        assert(a + b =~= a);
    } else {
        law_tokens_in_order(e, a, b.drop_last());
        assert((a + b).drop_last() =~= a + b.drop_last());
    }
}

/// The confidence of a sequence of tokens is their sum, taken in order, over
/// their number.
pub proof fn law_confidence_is_mean(thresholds: ThresholdsView, logprobs: Seq<Real64>)
    requires
        0 < logprobs.len() <= usize::MAX,
    ensures
        EvaluatorView::fresh(thresholds).with_all(logprobs).confidence() == sum_of(logprobs).over(
            real_of(logprobs.len()),
        ),
{
    lemma_fresh_sums(thresholds, logprobs);
}

/// The rounded sum of a sequence, taken in order from zero.
pub open spec fn sum_of(logprobs: Seq<Real64>) -> Real64
    decreases logprobs.len(),
{
    if logprobs.len() == 0 {
        positive_zero()
    } else {
        sum_of(logprobs.drop_last()).plus(logprobs.last())
    }
}

proof fn lemma_fresh_sums(thresholds: ThresholdsView, logprobs: Seq<Real64>)
    requires
        logprobs.len() <= usize::MAX,
    ensures
        EvaluatorView::fresh(thresholds).with_all(logprobs) == (EvaluatorView {
            thresholds,
            sum: sum_of(logprobs),
            count: logprobs.len(),
        }),
    decreases logprobs.len(),
{
    if logprobs.len() > 0 {
        lemma_fresh_sums(thresholds, logprobs.drop_last());
    }
}

/// No stream is cut before `min_tokens` tokens.
pub proof fn law_warmup_floor(e: EvaluatorView)
    requires
        e.count < e.thresholds.min_tokens,
    ensures
        e.decision() == Decision::Answer,
{
}

/// Past the floor a confidence that is a number falls into exactly one of three
/// bands: alpha and above answers, below beta and alpha abstains, the rest
/// escalates.
pub proof fn law_bands(e: EvaluatorView)
    requires
        e.count >= e.thresholds.min_tokens,
        e.confidence().is_number(),
        e.thresholds.answer_alpha.is_number(),
        e.thresholds.abstain_beta.is_number(),
        e.thresholds.abstain_beta.le(e.thresholds.answer_alpha),
    ensures
        e.decision() == Decision::Answer <==> e.thresholds.answer_alpha.le(e.confidence()),
        e.decision() == Decision::Abstain <==> e.confidence().lt(e.thresholds.abstain_beta),
        e.decision() == Decision::Escalate <==> e.thresholds.abstain_beta.le(e.confidence())
            && e.confidence().lt(e.thresholds.answer_alpha),
{
}

/// More confidence never turns an answer into a cut, nor an escalation into an
/// abstention.
pub proof fn law_more_confidence_is_no_worse(e: EvaluatorView, f: EvaluatorView)
    requires
        e.thresholds == f.thresholds,
        e.count >= e.thresholds.min_tokens,
        f.count >= f.thresholds.min_tokens,
        e.confidence().le(f.confidence()),
    ensures
        e.decision() == Decision::Answer ==> f.decision() == Decision::Answer,
        f.decision() == Decision::Abstain ==> e.decision() == Decision::Abstain,
{
}

/// Switching gating off on a degenerate signal changes no decision, as long
/// as alpha is at most the degenerate mean.
pub proof fn law_degenerate_changes_no_decision(e: EvaluatorView)
    requires
        e.degenerate(),
        e.thresholds.answer_alpha.le(degenerate_mean()),
    ensures
        e.decision() == Decision::Answer,
{
}

/// A signal is never degenerate with the guard off.
pub proof fn law_guard_can_be_disabled(e: EvaluatorView)
    requires
        !e.thresholds.degenerate_guard,
    ensures
        !e.degenerate(),
{
}

/// Any number of tokens is counted, and the thresholds stay what they were.
pub proof fn law_tokens_are_counted(thresholds: ThresholdsView, logprobs: Seq<Real64>)
    requires
        logprobs.len() <= usize::MAX,
    ensures
        EvaluatorView::fresh(thresholds).with_all(logprobs).count == logprobs.len(),
        EvaluatorView::fresh(thresholds).with_all(logprobs).thresholds == thresholds,
        EvaluatorView::fresh(thresholds).confidence() == (Real64::Finite {
            negative: false,
            units: 0,
        }),
{
    lemma_fresh_sums(thresholds, logprobs);
}

/// The mean is what running sums come to: they start at zero, each token is added
/// to the sum before it, and the last is divided by the number of tokens.
pub proof fn law_mean_of_running_sums(
    thresholds: ThresholdsView,
    logprobs: Seq<Real64>,
    sums: Seq<Real64>,
)
    requires
        0 < logprobs.len() <= usize::MAX,
        sums.len() == logprobs.len() + 1,
        sums[0] == (Real64::Finite { negative: false, units: 0 }),
        forall|i: int|
            0 <= i < logprobs.len() ==> #[trigger] sums[i + 1] == sums[i].plus(logprobs[i]),
    ensures
        EvaluatorView::fresh(thresholds).with_all(logprobs).confidence() == sums.last().over(
            real_of(logprobs.len()),
        ),
{
    lemma_fresh_sums(thresholds, logprobs);
    lemma_running_sums(logprobs, sums);
}

proof fn lemma_running_sums(logprobs: Seq<Real64>, sums: Seq<Real64>)
    requires
        sums.len() == logprobs.len() + 1,
        sums[0] == (Real64::Finite { negative: false, units: 0 }),
        forall|i: int|
            0 <= i < logprobs.len() ==> #[trigger] sums[i + 1] == sums[i].plus(logprobs[i]),
    ensures
        sums.last() == sum_of(logprobs),
    decreases logprobs.len(),
{
    if logprobs.len() > 0 {
        let (l, s) = (logprobs.drop_last(), sums.drop_last());
        assert forall|i: int| 0 <= i < l.len() implies #[trigger] s[i + 1] == s[i].plus(l[i]) by {
            assert(sums[i + 1] == sums[i].plus(logprobs[i]));
        }
        lemma_running_sums(l, s);
        let n = logprobs.len() - 1;
        assert(sums[n + 1] == sums[n].plus(logprobs[n]));
    }
}

/// The decision, whatever the thresholds and the confidence are: below the floor,
/// and from alpha on, it is to answer; otherwise to abstain below beta; and to
/// escalate in every other case.
pub proof fn law_decision(e: EvaluatorView)
    ensures
        ({
            let answer = e.count < e.thresholds.min_tokens || e.thresholds.answer_alpha.le(
                e.confidence(),
            );
            let low = e.confidence().lt(e.thresholds.abstain_beta);
            &&& e.decision() == Decision::Answer <==> answer
            &&& e.decision() == Decision::Abstain <==> !answer && low
            &&& e.decision() == Decision::Escalate <==> !answer && !low
        }),
{
}

/// A signal is degenerate exactly where the guard is on, at least sixteen tokens
/// were evaluated and their mean is above minus one hundredth.
pub proof fn law_degenerate(e: EvaluatorView)
    ensures
        e.degenerate() <==> e.thresholds.degenerate_guard && e.count >= 16 && real_of(1).over(
            real_of(100),
        ).neg().lt(e.confidence()),
{
}

} // verus!
