use rag_gate::binary64::Binary64;
use rag_gate::{ConfidenceEvaluator, Decision, GatingThresholds};

fn b(x: f64) -> Binary64 {
    Binary64::from_bits(x.to_bits())
}

fn f(x: Binary64) -> f64 {
    f64::from_bits(x.to_bits())
}

fn thresholds() -> GatingThresholds {
    GatingThresholds {
        answer_alpha: b(-0.5),
        abstain_beta: b(-1.2),
        min_tokens: 1,
        degenerate_guard: true,
    }
}

fn guard_thresholds(degenerate_guard: bool) -> GatingThresholds {
    GatingThresholds {
        answer_alpha: b(-0.5),
        abstain_beta: b(-1.2),
        min_tokens: 1,
        degenerate_guard,
    }
}

#[test]
fn test_evaluator() {
    let thresholds = GatingThresholds {
        answer_alpha: b(-0.5),
        abstain_beta: b(-1.2),
        min_tokens: 1, // disable warmup floor for this threshold-logic test
        degenerate_guard: true,
    };
    let mut eval = ConfidenceEvaluator::new(thresholds);

    eval.add_logprob(b(-0.4));
    assert_eq!(eval.evaluate(), Decision::Answer);

    eval.add_logprob(b(-0.8));
    // sum = -1.2, count = 2, mean = -0.6
    assert_eq!(eval.evaluate(), Decision::Escalate);

    eval.add_logprob(b(-2.6));
    // sum = -3.8, count = 3, mean about -1.267 (< -1.2 abstain threshold)
    assert_eq!(eval.evaluate(), Decision::Abstain);
}

#[test]
fn warmup_floor_forces_answer_below_min_tokens() {
    let thresholds = GatingThresholds {
        answer_alpha: b(-0.5),
        abstain_beta: b(-1.2),
        min_tokens: 4,
        degenerate_guard: true,
    };
    let mut eval = ConfidenceEvaluator::new(thresholds);

    // Terrible logprobs, but below the 4-token warmup floor.
    eval.add_logprob(b(-5.0));
    assert_eq!(eval.evaluate(), Decision::Answer);
    eval.add_logprob(b(-5.0));
    eval.add_logprob(b(-5.0));
    assert_eq!(eval.evaluate(), Decision::Answer); // count = 3, still warming up

    // 4th token crosses the floor; mean -5.0 < abstain_beta.
    eval.add_logprob(b(-5.0));
    assert_eq!(eval.evaluate(), Decision::Abstain);
}

#[test]
fn degenerate_signal_detected_only_after_warmup_window() {
    let mut eval = ConfidenceEvaluator::new(guard_thresholds(true));
    for _ in 0..15 {
        eval.add_logprob(b(-0.0001));
    }
    assert!(!eval.is_degenerate()); // 15 near-perfect tokens: still below the window
    eval.add_logprob(b(-0.0001));
    assert!(eval.is_degenerate()); // 16th near-perfect token fires detection
}

#[test]
fn realistic_confidence_is_not_degenerate() {
    let mut eval = ConfidenceEvaluator::new(guard_thresholds(true));
    for lp in [
        -0.05, -0.3, -0.02, -0.6, -0.1, -0.45, -0.08, -0.2, -0.33, -0.15, -0.05, -0.3, -0.02,
        -0.6, -0.1, -0.45, -0.08, -0.2, -0.33, -0.15,
    ] {
        eval.add_logprob(b(lp));
    }
    // mean about -0.223, well below the bound
    assert!(!eval.is_degenerate());
}

#[test]
fn degenerate_guard_can_be_disabled() {
    let mut eval = ConfidenceEvaluator::new(guard_thresholds(false));
    for _ in 0..30 {
        eval.add_logprob(b(-0.0001));
    }
    assert!(!eval.is_degenerate()); // detection opted out via config
}

#[test]
fn answers_when_confidence_meets_alpha() {
    let mut eval = ConfidenceEvaluator::new(thresholds());
    eval.add_logprob(b(-0.1));
    eval.add_logprob(b(-0.2));
    assert_eq!(eval.evaluate(), Decision::Answer);
}

#[test]
fn escalates_between_thresholds() {
    let mut eval = ConfidenceEvaluator::new(thresholds());
    eval.add_logprob(b(-0.7));
    eval.add_logprob(b(-0.9));
    // mean = -0.8, between beta (-1.2) and alpha (-0.5)
    assert_eq!(eval.evaluate(), Decision::Escalate);
}

#[test]
fn abstains_below_beta() {
    let mut eval = ConfidenceEvaluator::new(thresholds());
    eval.add_logprob(b(-2.0));
    eval.add_logprob(b(-2.5));
    assert_eq!(eval.evaluate(), Decision::Abstain);
}

#[test]
fn boundary_alpha_is_answer() {
    let mut eval = ConfidenceEvaluator::new(thresholds());
    eval.add_logprob(b(-0.5));
    assert_eq!(eval.evaluate(), Decision::Answer);
}

#[test]
fn boundary_beta_is_escalate_not_abstain() {
    let mut eval = ConfidenceEvaluator::new(thresholds());
    eval.add_logprob(b(-1.2));
    // strict `<` for abstain means exactly -1.2 is still Escalate
    assert_eq!(eval.evaluate(), Decision::Escalate);
}

#[test]
fn confidence_is_running_mean() {
    let mut eval = ConfidenceEvaluator::new(thresholds());
    assert_eq!(f(eval.current_confidence()), 0.0);
    eval.add_logprob(b(-1.0));
    assert_eq!(f(eval.current_confidence()), -1.0);
    eval.add_logprob(b(-3.0));
    assert_eq!(f(eval.current_confidence()), -2.0);
    assert_eq!(eval.count(), 2);
}

#[test]
fn added_logprob_returns_the_mean_with_it() {
    let mut eval = ConfidenceEvaluator::new(thresholds());
    assert_eq!(f(eval.add_logprob(b(-1.5))), -1.5);
    assert_eq!(f(eval.add_logprob(b(-0.5))), -1.0);
    assert_eq!(f(eval.thresholds().answer_alpha), -0.5);
    assert_eq!(f(eval.thresholds().abstain_beta), -1.2);
}

#[test]
fn running_mean_is_that_of_the_hardware() {
    let mut eval = ConfidenceEvaluator::new(thresholds());
    let mut sum = 0.0f64;
    for i in 1..500 {
        let lp = -1.0 / (i as f64) - 0.0137 * ((i % 7) as f64);
        sum += lp;
        assert_eq!(f(eval.add_logprob(b(lp))), sum / (i as f64));
    }
}

#[test]
fn degenerate_bound_is_exclusive() {
    // Fifteen zeros and one number sixteen times the bound: the mean is the bound.
    let last = -0.01f64 * 16.0;
    let mut eval = ConfidenceEvaluator::new(guard_thresholds(true));
    for _ in 0..15 {
        eval.add_logprob(b(0.0));
    }
    assert_eq!(f(eval.add_logprob(b(last))), -0.01);
    assert!(!eval.is_degenerate());
    // The next number towards zero is above it.
    let mut eval = ConfidenceEvaluator::new(guard_thresholds(true));
    for _ in 0..15 {
        eval.add_logprob(b(0.0));
    }
    let above = f64::from_bits(last.to_bits() - 1);
    assert!(f(eval.add_logprob(b(above))) > -0.01);
    assert!(eval.is_degenerate());
}

#[test]
fn confidence_that_is_no_number_escalates() {
    let mut eval = ConfidenceEvaluator::new(thresholds());
    eval.add_logprob(b(f64::NEG_INFINITY));
    assert_eq!(eval.evaluate(), Decision::Abstain);
    eval.add_logprob(b(f64::INFINITY));
    assert!(f(eval.current_confidence()).is_nan());
    assert_eq!(eval.evaluate(), Decision::Escalate);
}
