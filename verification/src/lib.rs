//! Confidence gating for streamed language-model answers.

pub mod binary64;
pub mod calibrate;
pub mod config;
pub mod dataset;
pub mod decimal;
pub mod eval;
pub mod eval_laws;
pub mod evaluator;
pub mod headers;
pub mod interceptor;
pub mod json;
pub mod proxy;
pub mod reading_laws;
pub mod report_laws;
pub mod rounding;
pub mod text;
pub mod whole_stream;
pub mod wire;

pub use config::{GatingThresholds, ProxyConfig};
pub use evaluator::{ConfidenceEvaluator, Decision};
pub use interceptor::{InterceptedStream, Protocol};
