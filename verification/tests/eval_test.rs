use rag_gate::binary64::Binary64;
use rag_gate::calibrate::{calibrate_handler, CalibrationRequest, CalibrationSample};
use rag_gate::dataset::{decode_dataset, decode_record, RecordFault};
use rag_gate::eval::{
    abstain_rate_at_beta, build_report, check_target_coverage, compute_accuracy, compute_aurc,
    coverage_at_alpha, escalation_rate_between, false_abstain_rate, false_accept_rate,
    format_human_report, load_dataset_file, parse_dataset_str, risk_at_coverage,
    select_optimal_alpha, select_optimal_beta, sort_by_confidence, ScoredSample,
};

fn b(x: f64) -> Binary64 {
    Binary64::from_bits(x.to_bits())
}

fn f(x: Binary64) -> f64 {
    f64::from_bits(x.to_bits())
}

fn sample(confidence: f64, correct: bool) -> ScoredSample {
    ScoredSample {
        confidence: b(confidence),
        correct,
    }
}

#[test]
fn accuracy_all_correct_is_one() {
    let samples = vec![sample(-0.1, true), sample(-0.5, true)];
    assert!((f(compute_accuracy(&samples)) - 1.0).abs() < 1e-12);
}

#[test]
fn accuracy_half_correct_is_half() {
    let samples = vec![
        sample(-0.1, true),
        sample(-0.5, true),
        sample(-1.0, false),
        sample(-2.0, false),
    ];
    assert!((f(compute_accuracy(&samples)) - 0.5).abs() < 1e-12);
}

#[test]
fn accuracy_empty_is_zero() {
    assert!((f(compute_accuracy(&[])) - 0.0).abs() < 1e-12);
}

#[test]
fn false_accept_rate_counts_wrong_among_answered() {
    let samples = vec![
        sample(-0.1, true),
        sample(-0.2, false),
        sample(-1.0, true),
        sample(-2.0, false),
    ];
    // alpha = -0.5 answers the first two; one of them is wrong.
    assert!((f(false_accept_rate(&samples, b(-0.5))) - 0.5).abs() < 1e-12);
}

#[test]
fn false_accept_rate_with_nothing_answered_is_zero() {
    let samples = vec![sample(-0.1, true), sample(-0.2, false)];
    // alpha above every confidence answers nothing.
    assert!((f(false_accept_rate(&samples, b(0.0))) - 0.0).abs() < 1e-12);
}

#[test]
fn false_abstain_rate_counts_correct_among_abstained() {
    let samples = vec![
        sample(-0.1, true),
        sample(-0.2, false),
        sample(-1.0, true),
        sample(-2.0, false),
    ];
    // beta = -0.5 abstains on the last two; one of them is actually correct.
    assert!((f(false_abstain_rate(&samples, b(-0.5))) - 0.5).abs() < 1e-12);
}

#[test]
fn false_abstain_rate_with_nothing_abstained_is_zero() {
    let samples = vec![sample(-0.1, true), sample(-0.2, false)];
    // beta below every confidence abstains on nothing.
    assert!((f(false_abstain_rate(&samples, b(-100.0))) - 0.0).abs() < 1e-12);
}

#[test]
fn coverage_at_alpha_is_answered_fraction() {
    let samples = vec![
        sample(-0.1, true),
        sample(-0.5, true),
        sample(-1.0, false),
        sample(-2.0, false),
    ];
    assert!((f(coverage_at_alpha(&samples, b(-0.5))) - 0.5).abs() < 1e-12);
}

#[test]
fn risk_at_coverage_is_error_rate_among_top_fraction() {
    // Sorted descending: correct, correct, wrong, wrong.
    let samples = vec![
        sample(-0.1, true),
        sample(-0.5, true),
        sample(-1.0, false),
        sample(-2.0, false),
    ];
    assert!((f(risk_at_coverage(&samples, b(0.5))) - 0.0).abs() < 1e-12);
}

#[test]
fn risk_at_full_coverage_is_overall_error_rate() {
    let samples = vec![
        sample(-0.1, true),
        sample(-0.5, true),
        sample(-1.0, false),
        sample(-2.0, false),
    ];
    assert!((f(risk_at_coverage(&samples, b(1.0))) - 0.5).abs() < 1e-12);
}

#[test]
fn optimal_alpha_answers_target_fraction() {
    let samples = vec![
        sample(-0.1, true),
        sample(-0.5, true),
        sample(-1.0, false),
        sample(-2.0, false),
    ];
    // target 0.5 of 4 keeps 2; threshold is the 2nd-highest confidence.
    assert!((f(select_optimal_alpha(&samples, b(0.5))) - (-0.5)).abs() < 1e-12);
}

#[test]
fn parse_ignores_extra_fields() {
    let text = r#"{
        "model": "openai/gpt-4o-mini",
        "results": [
            {"id": "0", "question": "?", "gold": "18", "confidence": -0.1,
             "correct": true, "extracted": "18", "logprobs": [-0.1]},
            {"id": "1", "question": "?", "gold": "7", "confidence": -2.0,
             "correct": false, "extracted": "8", "logprobs": [-2.0]}
        ],
        "summary": {}
    }"#;
    let samples = parse_dataset_str(text).expect("should parse");
    assert_eq!(samples.len(), 2);
}

#[test]
fn parse_accepts_bare_array() {
    let text = r#"[{"confidence": -0.1, "correct": true}]"#;
    let samples = parse_dataset_str(text).expect("should parse");
    assert_eq!(samples.len(), 1);
}

#[test]
fn parse_rejects_record_missing_confidence() {
    let text = r#"{"results": [{"correct": true}]}"#;
    assert!(parse_dataset_str(text).is_err());
}

#[test]
fn build_report_end_to_end_on_known_samples() {
    // Deliberately unsorted: build_report must sort by confidence itself.
    // Sorted: (-0.1,T), (-0.5,T), (-1.0,F), (-2.0,F).
    let samples = vec![
        sample(-2.0, false),
        sample(-0.1, true),
        sample(-1.0, false),
        sample(-0.5, true),
    ];
    let report = build_report(&samples, b(0.5), "test");
    assert_eq!(report.n, 4);
    assert_eq!(report.n_correct, 2);
    assert!((f(report.accuracy) - 0.5).abs() < 1e-12);
    assert!((f(report.optimal_alpha) - (-0.5)).abs() < 1e-12);
    // n = 4 < 5, so beta falls back to alpha - 0.7.
    assert!((f(report.optimal_beta) - (-1.2)).abs() < 1e-12);
    assert!((f(report.coverage) - 0.5).abs() < 1e-12);
    assert!((f(report.risk) - 0.0).abs() < 1e-12);
    // Hand-computed trapezoidal AURC over the risk steps of [T,T,F,F] = 7/48.
    assert!((f(report.aurc) - 7.0 / 48.0).abs() < 1e-9);
    assert!((f(report.false_accept_rate) - 0.0).abs() < 1e-12);
    assert!((f(report.false_abstain_rate) - 0.0).abs() < 1e-12);
}

#[test]
fn calibrate_endpoint_and_cli_report_agree() {
    // Single-element logprobs, so the endpoint's mean == the CLI's confidence.
    // n = 6 exercises the real beta sweep (not the n < 5 fallback).
    let confidences = [-0.1, -0.5, -1.0, -2.0, -0.3, -1.5];
    let correct = [true, true, false, false, true, false];
    let scored: Vec<ScoredSample> = confidences
        .iter()
        .zip(correct.iter())
        .map(|(&confidence, &c)| sample(confidence, c))
        .collect();
    let request = CalibrationRequest {
        samples: confidences
            .iter()
            .zip(correct.iter())
            .map(|(&confidence, &c)| CalibrationSample {
                question: None,
                context: None,
                correct: c,
                logprobs: vec![b(confidence)],
            })
            .collect(),
        target_coverage: b(0.5),
    };
    let response = calibrate_handler(request);
    let report = build_report(&scored, b(0.5), "parity");
    assert!((f(response.optimal_alpha) - f(report.optimal_alpha)).abs() < 1e-12);
    assert!((f(response.optimal_beta) - f(report.optimal_beta)).abs() < 1e-12);
    assert!((f(response.aurc_at_target_coverage) - f(report.aurc)).abs() < 1e-12);
    assert!((f(response.abstain_rate) - f(report.abstain_rate)).abs() < 1e-12);
    assert!((f(response.escalation_rate) - f(report.escalation_rate)).abs() < 1e-12);
}

/// A plain implementation on hardware numbers, to hold the library against.
fn plain_risk(samples: &[(f64, bool)], coverage: f64) -> f64 {
    let n = samples.len();
    if n == 0 {
        return 0.0;
    }
    let kept = ((coverage * n as f64).round() as usize).max(1).min(n);
    samples[..kept].iter().filter(|s| !s.1).count() as f64 / kept as f64
}

fn plain_aurc(samples: &[(f64, bool)], steps: usize) -> f64 {
    if samples.is_empty() {
        return 0.0;
    }
    let mut area = 0.0;
    let mut prev_coverage = 0.0;
    let mut prev_risk = plain_risk(samples, 1.0 / samples.len() as f64);
    for i in 1..=steps {
        let coverage = i as f64 / steps as f64;
        let risk = plain_risk(samples, coverage);
        area += (risk + prev_risk) / 2.0 * (coverage - prev_coverage);
        prev_coverage = coverage;
        prev_risk = risk;
    }
    area
}

fn many(n: usize, seed: u64) -> Vec<(f64, bool)> {
    let mut state = seed;
    (0..n)
        .map(|_| {
            state = state
                .wrapping_mul(6364136223846793005)
                .wrapping_add(1442695040888963407);
            let confidence = -(((state >> 40) % 400) as f64) / 100.0;
            (confidence, (state >> 33) % 3 != 0)
        })
        .collect()
}

#[test]
fn curve_is_that_of_the_hardware() {
    for n in [1usize, 2, 3, 5, 8, 13, 50, 137] {
        let mut plain = many(n, n as u64 + 7);
        let mut samples: Vec<ScoredSample> = plain.iter().map(|s| sample(s.0, s.1)).collect();
        plain.sort_by(|x, y| y.0.partial_cmp(&x.0).unwrap());
        sort_by_confidence(&mut samples);
        for i in 0..n {
            assert_eq!(f(samples[i].confidence), plain[i].0);
            assert_eq!(samples[i].correct, plain[i].1);
        }
        for c in [0.0, 0.1, 0.25, 0.333, 0.5, 0.8, 1.0, 7.0, -1.0, f64::NAN] {
            assert_eq!(f(risk_at_coverage(&samples, b(c))), plain_risk(&plain, c));
        }
        assert_eq!(f(compute_aurc(&samples, 100)), plain_aurc(&plain, 100));
        assert_eq!(f(compute_aurc(&samples, 1)), plain_aurc(&plain, 1));
        assert_eq!(f(compute_aurc(&samples, 0)), 0.0);
    }
}

#[test]
fn sorting_is_stable_and_descends() {
    let mut samples = vec![
        sample(-1.0, true),
        sample(-0.5, false),
        sample(-1.0, false),
        sample(-0.5, true),
        sample(-2.0, true),
    ];
    sort_by_confidence(&mut samples);
    let got: Vec<(f64, bool)> = samples.iter().map(|s| (f(s.confidence), s.correct)).collect();
    assert_eq!(
        got,
        vec![(-0.5, false), (-0.5, true), (-1.0, true), (-1.0, false), (-2.0, true)]
    );
}

#[test]
fn every_sample_has_one_outcome() {
    for n in [1usize, 2, 4, 5, 6, 17, 60] {
        for seed in 0..5 {
            let samples: Vec<ScoredSample> =
                many(n, seed * 31 + 5).iter().map(|s| sample(s.0, s.1)).collect();
            for c in [0.1, 0.5, 0.8, 1.0] {
                let r = build_report(&samples, b(c), "all");
                assert!(f(r.optimal_beta) <= f(r.optimal_alpha));
                assert_eq!(r.n_answered + r.n_abstained + r.n_escalated, n);
                assert_eq!(f(r.coverage), r.n_answered as f64 / n as f64);
                assert_eq!(f(r.abstain_rate), r.n_abstained as f64 / n as f64);
                assert_eq!(f(r.escalation_rate), r.n_escalated as f64 / n as f64);
                assert_eq!(f(r.risk), f(r.false_accept_rate));
                for rate in [
                    r.accuracy,
                    r.coverage,
                    r.risk,
                    r.false_abstain_rate,
                    r.abstain_rate,
                    r.escalation_rate,
                ] {
                    assert!(f(rate) >= 0.0 && f(rate) <= 1.0);
                }
            }
        }
    }
}

#[test]
fn greater_target_lowers_alpha() {
    let mut samples: Vec<ScoredSample> = many(40, 3).iter().map(|s| sample(s.0, s.1)).collect();
    sort_by_confidence(&mut samples);
    let mut last = f64::INFINITY;
    for i in 1..=20 {
        let alpha = f(select_optimal_alpha(&samples, b(i as f64 / 20.0)));
        assert!(alpha <= last);
        last = alpha;
    }
}

#[test]
fn no_errors_no_area() {
    let samples: Vec<ScoredSample> = (0..30).map(|i| sample(-(i as f64), true)).collect();
    assert_eq!(f(compute_aurc(&samples, 100)), 0.0);
    assert_eq!(f(risk_at_coverage(&samples, b(0.4))), 0.0);
}

#[test]
fn all_wrong_is_full_area() {
    let samples: Vec<ScoredSample> = (0..4).map(|i| sample(-(i as f64), false)).collect();
    assert_eq!(f(compute_aurc(&samples, 4)), 1.0);
    assert_eq!(f(risk_at_coverage(&samples, b(0.4))), 1.0);
}

#[test]
fn alpha_of_nothing_is_the_default() {
    assert_eq!(f(select_optimal_alpha(&[], b(0.8))), -0.5);
    assert_eq!(f(select_optimal_beta(&[], b(0.8), b(-0.5))), -0.5 - 0.7);
    assert_eq!(f(compute_aurc(&[], 100)), 0.0);
}

#[test]
fn beta_is_the_last_tolerable_confidence() {
    // Risks down the list: 0, 0, 0, 1/4, 2/5, 3/6. Twice that at half coverage is
    // zero, so the third sample is the last tolerable one.
    let sorted = vec![
        sample(-0.1, true),
        sample(-0.3, true),
        sample(-0.5, true),
        sample(-1.0, false),
        sample(-1.5, false),
        sample(-2.0, false),
    ];
    assert_eq!(f(select_optimal_beta(&sorted, b(0.5), b(-0.5))), -0.5);
    // At two thirds the risk is 1/4, and twice that is reached at the end.
    assert_eq!(f(select_optimal_beta(&sorted, b(0.666), b(-1.0))), -2.0);
}

#[test]
fn escalation_is_between_the_thresholds() {
    let samples = vec![
        sample(-0.1, true),
        sample(-0.5, true),
        sample(-1.0, false),
        sample(-1.2, false),
        sample(-2.0, false),
    ];
    assert_eq!(f(escalation_rate_between(&samples, b(-0.5), b(-1.2))), 0.4);
    assert_eq!(f(abstain_rate_at_beta(&samples, b(-1.2))), 0.2);
    assert_eq!(f(coverage_at_alpha(&samples, b(-0.5))), 0.4);
}

#[test]
fn sample_without_logprobs_is_abstained_on() {
    let request = CalibrationRequest {
        samples: vec![
            CalibrationSample {
                question: Some("q".to_string()),
                context: Some("c".to_string()),
                correct: true,
                logprobs: vec![b(-0.25), b(-0.75)],
            },
            CalibrationSample { question: None, context: None, correct: false, logprobs: vec![] },
        ],
        target_coverage: b(0.5),
    };
    let response = calibrate_handler(request);
    assert_eq!(f(response.optimal_alpha), -0.5);
    assert_eq!(f(response.optimal_beta), -0.5 - 0.7);
    assert_eq!(f(response.abstain_rate), 0.5);
    assert_eq!(f(response.escalation_rate), 0.0);
}

#[test]
fn report_as_a_table() {
    let samples = vec![
        sample(-2.0, false),
        sample(-0.1, true),
        sample(-1.0, false),
        sample(-0.5, true),
    ];
    let report = build_report(&samples, b(0.5), "test");
    let text = format_human_report(&report);
    let expected = "rag-gate evaluate: test\n\
         target coverage: 0.50\n\
         +--------------------+----------+\n\
         | n                  |        4 |\n\
         | n_correct          |        2 |\n\
         | accuracy           |   0.5000 |\n\
         | optimal_alpha      |  -0.5000 |\n\
         | optimal_beta       |  -1.2000 |\n\
         | coverage           |   0.5000 |\n\
         | risk               |   0.0000 |\n\
         | aurc               |   0.1458 |\n\
         | false_accept_rate  |   0.0000 |\n\
         | false_abstain_rate |   0.0000 |\n\
         | abstain_rate       |   0.2500 |\n\
         | escalation_rate    |   0.2500 |\n\
         +--------------------+----------+\n\
         answered 2/4  abstained 1/4  escalated 1/4\n\
         (risk == false_accept_rate under threshold gating: both are the error\n\
         rate among the answered set.)";
    assert_eq!(text, expected);
}

#[test]
fn parsed_samples_hold_the_numbers_in_the_text() {
    let text = r#"{"results": [{"confidence": -0.1, "correct": true},
        {"confidence": 3, "correct": false}, {"confidence": -7, "correct": true}]}"#;
    let samples = parse_dataset_str(text).unwrap();
    let got: Vec<(f64, bool)> = samples.iter().map(|s| (f(s.confidence), s.correct)).collect();
    assert_eq!(got, vec![(-0.1, true), (3.0, false), (-7.0, true)]);
}

#[test]
fn dataset_errors_say_what_is_wrong() {
    let invalid = parse_dataset_str("{nope").unwrap_err();
    assert!(invalid.starts_with("invalid JSON: "));
    assert!(invalid.len() > "invalid JSON: ".len());
    let shape = "expected an object with a \"results\" array or a bare [...] array of \
                 {\"confidence\": <f64>, \"correct\": <bool>} records";
    assert_eq!(parse_dataset_str("{\"other\": []}").unwrap_err(), shape);
    assert_eq!(parse_dataset_str("3").unwrap_err(), shape);
    let prefix = "could not parse records as [{\"confidence\": f64, \"correct\": bool}, ...]: ";
    for (text, detail) in [
        ("{\"results\": 3}", "invalid type: integer `3`, expected a sequence"),
        ("{\"results\": -2.5}", "invalid type: floating point `-2.5`, expected a sequence"),
        ("{\"results\": {}}", "invalid type: map, expected a sequence"),
        ("[3]", "invalid type: integer `3`, expected struct BenchmarkRecord"),
        ("[\"a\\\"b\"]", "invalid type: string \"a\\\"b\", expected struct BenchmarkRecord"),
        ("[[0.5, true]]", "invalid type: sequence, expected struct BenchmarkRecord"),
        ("[[]]", "invalid type: sequence, expected struct BenchmarkRecord"),
        ("[[1.0]]", "invalid type: sequence, expected struct BenchmarkRecord"),
        ("[[1.0, true, 2]]", "invalid type: sequence, expected struct BenchmarkRecord"),
        ("[{\"correct\": true}]", "missing field `confidence`"),
        ("[{\"confidence\": 1}]", "missing field `correct`"),
        ("[{}]", "missing field `confidence`"),
        (
            "[{\"confidence\": null, \"correct\": true}]",
            "invalid type: null, expected f64",
        ),
        (
            "[{\"confidence\": \"1\", \"correct\": true}]",
            "invalid type: string \"1\", expected f64",
        ),
        (
            "[{\"confidence\": true, \"correct\": true}]",
            "invalid type: boolean `true`, expected f64",
        ),
        (
            "[{\"confidence\": 1, \"correct\": \"yes\"}]",
            "invalid type: string \"yes\", expected a boolean",
        ),
        (
            "[{\"confidence\": 1, \"correct\": -7}]",
            "invalid type: integer `-7`, expected a boolean",
        ),
        (
            "[{\"confidence\": 1, \"correct\": 0.5}]",
            "invalid type: floating point `0.5`, expected a boolean",
        ),
    ] {
        assert_eq!(parse_dataset_str(text).unwrap_err(), format!("{prefix}{detail}"), "{text}");
    }
}

#[test]
fn found_values_are_worded_as_the_parser_words_them() {
    let prefix = "could not parse records as [{\"confidence\": f64, \"correct\": bool}, ...]: ";
    for text in ["null", "3", "-3", "2.5", "-0.0", "1e300", "\"x\\ny\\u00e9\"", "[1]", "{\"a\":1}"] {
        let value: serde_json::Value = serde_json::from_str(text).unwrap();
        let parser = serde_json::from_value::<bool>(value).unwrap_err().to_string();
        let record = format!("[{{\"confidence\": 1, \"correct\": {text}}}]");
        assert_eq!(parse_dataset_str(&record).unwrap_err(), format!("{prefix}{parser}"));
    }
}

#[test]
fn each_record_fault_has_its_input() {
    let fault = |text: &str| {
        let value: serde_json::Value = serde_json::from_str(text).unwrap();
        decode_record(&value).unwrap_err()
    };
    assert_eq!(fault("3"), RecordFault::NotARecord("integer `3`".to_string()));
    assert_eq!(fault("[]"), RecordFault::NotARecord("sequence".to_string()));
    assert_eq!(fault("[1]"), RecordFault::NotARecord("sequence".to_string()));
    assert_eq!(fault("[1, true]"), RecordFault::NotARecord("sequence".to_string()));
    assert_eq!(fault("[1, true, true]"), RecordFault::NotARecord("sequence".to_string()));
    assert_eq!(fault("{\"correct\": true}"), RecordFault::NoConfidence);
    assert_eq!(fault("{\"confidence\": 1}"), RecordFault::NoCorrect);
    assert_eq!(
        fault("{\"confidence\": null, \"correct\": true}"),
        RecordFault::BadConfidence("null".to_string())
    );
    assert_eq!(
        fault("{\"confidence\": 1, \"correct\": 0}"),
        RecordFault::BadCorrect("integer `0`".to_string())
    );
    assert_eq!(
        fault("{\"correct\": false, \"confidence\": {}}"),
        RecordFault::BadConfidence("map".to_string())
    );
}

#[test]
fn bare_and_wrapped_records_are_the_same() {
    let bare: serde_json::Value =
        serde_json::from_str(r#"[{"confidence": -1.5, "correct": true}]"#).unwrap();
    let wrapped: serde_json::Value = serde_json::from_str(
        r#"{"model": 1, "results": [{"confidence": -1.5, "correct": true, "id": "x"}]}"#,
    )
    .unwrap();
    let x = decode_dataset(&bare).unwrap();
    let y = decode_dataset(&wrapped).unwrap();
    assert_eq!(x.len(), 1);
    assert_eq!(y.len(), 1);
    assert_eq!(f(x[0].confidence), -1.5);
    assert_eq!(f(y[0].confidence), -1.5);
    assert_eq!(x[0].correct, y[0].correct);
}

#[test]
fn dataset_file_errors() {
    assert_eq!(
        load_dataset_file("a.json", Err("gone".to_string())).unwrap_err(),
        "could not read a.json: gone"
    );
    assert_eq!(
        load_dataset_file("a.json", Ok("{\"results\": []}".to_string())).unwrap_err(),
        "no usable records in a.json: \"results\" array is empty"
    );
    assert!(load_dataset_file("a.json", Ok("nope".to_string())).is_err());
    let samples =
        load_dataset_file("a.json", Ok("[{\"confidence\": 2, \"correct\": true}]".to_string()))
            .unwrap();
    assert_eq!(samples.len(), 1);
    assert_eq!(f(samples[0].confidence), 2.0);
}

#[test]
fn target_coverage_is_checked() {
    for c in [1e-9, 0.5, 1.0] {
        assert!(check_target_coverage(b(c), "x").is_ok());
    }
    for c in [0.0, -0.0, -1.0, 1.0000001, f64::NAN, f64::INFINITY] {
        assert_eq!(
            check_target_coverage(b(c), "1.5").unwrap_err(),
            "invalid --target-coverage 1.5: must satisfy 0 < c <= 1"
        );
    }
}

#[test]
fn full_coverage_risk_is_one_less_the_accuracy() {
    for n in [1usize, 2, 3, 7, 49, 100] {
        let samples: Vec<ScoredSample> =
            many(n, n as u64 * 3 + 1).iter().map(|s| sample(s.0, s.1)).collect();
        let risk = f(risk_at_coverage(&samples, b(1.0)));
        assert!((risk - (1.0 - f(compute_accuracy(&samples)))).abs() < 1e-12);
    }
}

#[test]
fn rates_add_up_to_one() {
    for n in [1usize, 3, 7, 49, 100] {
        let samples: Vec<ScoredSample> =
            many(n, n as u64 * 5 + 2).iter().map(|s| sample(s.0, s.1)).collect();
        let (alpha, beta) = (b(-1.0), b(-2.5));
        let sum = f(coverage_at_alpha(&samples, alpha))
            + f(abstain_rate_at_beta(&samples, beta))
            + f(escalation_rate_between(&samples, alpha, beta));
        assert!((sum - 1.0).abs() < 1e-12);
        assert_eq!(f(escalation_rate_between(&samples, beta, beta)), 0.0);
    }
}

#[test]
fn perfect_ranking_has_the_least_area() {
    for n in [1usize, 2, 5, 12, 40] {
        let plain = many(n, n as u64 + 11);
        let order: Vec<ScoredSample> = plain.iter().map(|s| sample(s.0, s.1)).collect();
        let mut perfect: Vec<ScoredSample> =
            order.iter().filter(|s| s.correct).cloned().collect();
        perfect.extend(order.iter().filter(|s| !s.correct).cloned());
        for steps in [1usize, 3, 100] {
            let least = f(compute_aurc(&perfect, steps));
            assert!(0.0 <= least && least <= f(compute_aurc(&order, steps)));
        }
    }
}

#[test]
fn beta_ends_the_longest_tolerable_prefix() {
    for seed in 0..20 {
        let mut samples: Vec<ScoredSample> =
            many(25, seed).iter().map(|s| sample(s.0, s.1)).collect();
        sort_by_confidence(&mut samples);
        let rate = |k: usize| samples[..k].iter().filter(|s| !s.correct).count() as f64 / k as f64;
        let limit = f(risk_at_coverage(&samples, b(0.4))) * 2.0;
        let last = (1..=25).rev().find(|&k| rate(k) <= limit).unwrap();
        assert_eq!(
            f(select_optimal_beta(&samples, b(0.4), b(7.0))),
            f(samples[last - 1].confidence)
        );
    }
}
