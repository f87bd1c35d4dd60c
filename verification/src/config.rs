//! Settings of gating and of the proxy around it, and where they come from.

use crate::binary64::Binary64;
use crate::decimal::{decimal, law_decimal_reads_back, natural, parse_natural};
use crate::rounding::{
    distance, law_quotient_is_close, law_small_naturals_are_exact, lemma_nearest_exact, real_of,
    Real64,
};
use crate::text::same_text;
use vstd::arithmetic::power2::{
    lemma2_to64, lemma2_to64_rest, lemma_pow2_adds, lemma_pow2_pos, lemma_pow2_strictly_increases,
    lemma_pow2_unfold, pow2,
};
use vstd::prelude::*;

verus! {

/// When a stream is answered, escalated or abstained on.
#[derive(Debug, Clone, Copy)]
pub struct GatingThresholds {
    pub answer_alpha: Binary64,
    pub abstain_beta: Binary64,
    /// Number of evaluated tokens below which the stream always passes. The mean
    /// over one or two tokens is too noisy to act on; 1 disables the floor.
    pub min_tokens: usize,
    /// Whether a signal that is too perfect to trust switches gating off.
    pub degenerate_guard: bool,
}

/// What [`GatingThresholds`] hold.
pub ghost struct ThresholdsView {
    pub answer_alpha: Real64,
    pub abstain_beta: Real64,
    pub min_tokens: nat,
    pub degenerate_guard: bool,
}

impl View for GatingThresholds {
    type V = ThresholdsView;

    open spec fn view(&self) -> ThresholdsView {
        ThresholdsView {
            answer_alpha: self.answer_alpha@,
            abstain_beta: self.abstain_beta@,
            min_tokens: self.min_tokens as nat,
            degenerate_guard: self.degenerate_guard,
        }
    }
}

/// Settings of the proxy.
#[derive(Debug, Clone)]
pub struct ProxyConfig {
    pub listen_addr: String,
    pub upstream_url: String,
    pub thresholds: GatingThresholds,
    /// Whether to ask the upstream for log probabilities in every request. Some
    /// upstreams reject the field; gating then only works where the client
    /// itself asks.
    pub inject_logprobs: bool,
    /// Largest request body accepted from a client, in bytes.
    pub max_body_bytes: usize,
    /// Upstream connect timeout in seconds.
    pub connect_timeout_secs: u64,
}

/// What a [`ProxyConfig`] holds.
#[verifier::ext_equal]
pub ghost struct ConfigView {
    pub listen_addr: Seq<char>,
    pub upstream_url: Seq<char>,
    pub thresholds: ThresholdsView,
    pub inject_logprobs: bool,
    pub max_body_bytes: nat,
    pub connect_timeout_secs: nat,
}

impl View for ProxyConfig {
    type V = ConfigView;

    open spec fn view(&self) -> ConfigView {
        ConfigView {
            listen_addr: self.listen_addr@,
            upstream_url: self.upstream_url@,
            thresholds: self.thresholds@,
            inject_logprobs: self.inject_logprobs,
            max_body_bytes: self.max_body_bytes as nat,
            connect_timeout_secs: self.connect_timeout_secs as nat,
        }
    }
}

/// The `[thresholds]` table of a configuration file.
#[derive(Debug, Clone, Copy)]
pub struct TomlThresholds {
    pub answer_alpha: Binary64,
    pub abstain_beta: Binary64,
    pub min_tokens: Option<usize>,
    pub degenerate_guard: Option<bool>,
}

/// The `[proxy]` table of a configuration file.
#[derive(Debug, Clone)]
pub struct TomlProxy {
    pub listen_addr: Option<String>,
    pub upstream_url: Option<String>,
    pub inject_logprobs: Option<bool>,
    pub max_body_bytes: Option<usize>,
    pub connect_timeout_secs: Option<u64>,
}

/// A configuration file as read. The last three settings may stand in the
/// `[proxy]` table or at the top level; the table wins.
#[derive(Debug, Clone)]
pub struct TomlConfig {
    pub proxy: TomlProxy,
    pub thresholds: Option<TomlThresholds>,
    pub inject_logprobs: Option<bool>,
    pub max_body_bytes: Option<usize>,
    pub connect_timeout_secs: Option<u64>,
}

/// The `RAGGATE_*` environment variables that are set. The two thresholds come
/// as numbers, where their text denotes one; the rest as they stand.
#[derive(Debug, Clone)]
pub struct EnvOverrides {
    pub listen_addr: Option<String>,
    pub upstream_url: Option<String>,
    pub answer_alpha: Option<Binary64>,
    pub abstain_beta: Option<Binary64>,
    pub min_tokens: Option<String>,
    pub inject_logprobs: Option<String>,
    pub max_body_bytes: Option<String>,
    pub connect_timeout_secs: Option<String>,
}

// ---------------------------------------------------------------------------
// Defaults
// ---------------------------------------------------------------------------

/// The thresholds that apply where none are set: -0.5, -1.2, four tokens and
/// the guard on.
pub open spec fn default_thresholds() -> ThresholdsView {
    ThresholdsView {
        answer_alpha: real_of(1).over(real_of(2)).neg(),
        abstain_beta: real_of(12).over(real_of(10)).neg(),
        min_tokens: 4,
        degenerate_guard: true,
    }
}

/// The settings that apply where none are made.
pub open spec fn default_config() -> ConfigView {
    ConfigView {
        listen_addr: "0.0.0.0:8080"@,
        upstream_url: "https://api.openai.com"@,
        thresholds: default_thresholds(),
        inject_logprobs: true,
        max_body_bytes: 2_097_152,
        connect_timeout_secs: 10,
    }
}

pub fn default_min_tokens() -> (r: usize)
    ensures
        r == 4,
        r == default_thresholds().min_tokens,
{
    4
}

pub fn default_degenerate_guard() -> (r: bool)
    ensures
        r,
        r == default_thresholds().degenerate_guard,
{
    true
}

pub fn default_inject_logprobs() -> (r: bool)
    ensures
        r,
        r == default_config().inject_logprobs,
{
    true
}

/// Two mebibytes.
pub fn default_max_body_bytes() -> (r: usize)
    ensures
        r == 2 * 1024 * 1024,
        r == default_config().max_body_bytes,
{
    2 * 1024 * 1024
}

pub fn default_connect_timeout_secs() -> (r: u64)
    ensures
        r == 10,
        r == default_config().connect_timeout_secs,
{
    10
}

pub fn default_listen_addr() -> (r: String)
    ensures
        r@ == "0.0.0.0:8080"@,
        r@ == default_config().listen_addr,
{
    "0.0.0.0:8080".to_owned()
}

pub fn default_upstream_url() -> (r: String)
    ensures
        r@ == "https://api.openai.com"@,
        r@ == default_config().upstream_url,
{
    "https://api.openai.com".to_owned()
}

impl Default for GatingThresholds {
    fn default() -> (r: Self)
        ensures
            r@ == default_thresholds(),
    {
        GatingThresholds {
            answer_alpha: Binary64::ratio(1, 2).neg(),
            abstain_beta: Binary64::ratio(12, 10).neg(),
            min_tokens: default_min_tokens(),
            degenerate_guard: default_degenerate_guard(),
        }
    }
}

impl Default for ProxyConfig {
    fn default() -> (r: Self)
        ensures
            r@ == default_config(),
    {
        ProxyConfig {
            listen_addr: default_listen_addr(),
            upstream_url: default_upstream_url(),
            thresholds: GatingThresholds::default(),
            inject_logprobs: default_inject_logprobs(),
            max_body_bytes: default_max_body_bytes(),
            connect_timeout_secs: default_connect_timeout_secs(),
        }
    }
}

// ---------------------------------------------------------------------------
// The file
// ---------------------------------------------------------------------------

/// The value of a setting that may be made in two places, the first of which
/// wins.
pub open spec fn first_of<T>(a: Option<T>, b: Option<T>, otherwise: T) -> T {
    match a {
        Some(x) => x,
        None => match b {
            Some(x) => x,
            None => otherwise,
        },
    }
}

/// The thresholds of a `[thresholds]` table.
pub open spec fn file_thresholds(toml: TomlThresholds) -> ThresholdsView {
    ThresholdsView {
        answer_alpha: toml.answer_alpha@,
        abstain_beta: toml.abstain_beta@,
        min_tokens: match toml.min_tokens {
            Some(n) => n as nat,
            None => default_thresholds().min_tokens,
        },
        degenerate_guard: match toml.degenerate_guard {
            Some(b) => b,
            None => default_thresholds().degenerate_guard,
        },
    }
}

/// The settings of a file: what it leaves out is the default.
pub open spec fn file_config(toml: TomlConfig) -> ConfigView {
    ConfigView {
        listen_addr: match toml.proxy.listen_addr {
            Some(s) => s@,
            None => default_config().listen_addr,
        },
        upstream_url: match toml.proxy.upstream_url {
            Some(s) => s@,
            None => default_config().upstream_url,
        },
        thresholds: match toml.thresholds {
            Some(t) => file_thresholds(t),
            None => default_thresholds(),
        },
        inject_logprobs: first_of(
            toml.proxy.inject_logprobs,
            toml.inject_logprobs,
            default_config().inject_logprobs,
        ),
        max_body_bytes: first_of(
            toml.proxy.max_body_bytes,
            toml.max_body_bytes,
            default_config().max_body_bytes as usize,
        ) as nat,
        connect_timeout_secs: first_of(
            toml.proxy.connect_timeout_secs,
            toml.connect_timeout_secs,
            default_config().connect_timeout_secs as u64,
        ) as nat,
    }
}

fn pick<T>(a: Option<T>, b: Option<T>, otherwise: T) -> (r: T)
    ensures
        r == first_of(a, b, otherwise),
{
    match a {
        Some(x) => x,
        None => match b {
            Some(x) => x,
            None => otherwise,
        },
    }
}

impl GatingThresholds {
    /// The thresholds of a `[thresholds]` table.
    pub fn from(toml: TomlThresholds) -> (r: GatingThresholds)
        ensures
            r@ == file_thresholds(toml),
    {
        GatingThresholds {
            answer_alpha: toml.answer_alpha,
            abstain_beta: toml.abstain_beta,
            min_tokens: match toml.min_tokens {
                Some(n) => n,
                None => default_min_tokens(),
            },
            degenerate_guard: match toml.degenerate_guard {
                Some(b) => b,
                None => default_degenerate_guard(),
            },
        }
    }
}

// ---------------------------------------------------------------------------
// The environment
// ---------------------------------------------------------------------------

/// The number that a variable denotes, where it is set and denotes one that
/// fits.
pub open spec fn number_override(text: Option<String>, max: nat) -> Option<nat> {
    match text {
        Some(s) => match natural(s@) {
            Some(n) => if n <= max {
                Some(n)
            } else {
                None
            },
            None => None,
        },
        None => None,
    }
}

/// The truth value that a variable denotes, where it is set and denotes one.
pub open spec fn bool_override(text: Option<String>) -> Option<bool> {
    match text {
        Some(s) => if s@ == "true"@ {
            Some(true)
        } else if s@ == "false"@ {
            Some(false)
        } else {
            None
        },
        None => None,
    }
}

/// A setting, or what it is set to instead.
pub open spec fn overridden<T>(setting: T, by: Option<T>) -> T {
    match by {
        Some(x) => x,
        None => setting,
    }
}

/// `config` with the environment's settings in place of its own. A variable
/// whose text denotes no value of its setting's type changes nothing.
pub open spec fn env_config(config: ConfigView, env: EnvOverrides) -> ConfigView {
    ConfigView {
        listen_addr: match env.listen_addr {
            Some(s) => s@,
            None => config.listen_addr,
        },
        upstream_url: match env.upstream_url {
            Some(s) => s@,
            None => config.upstream_url,
        },
        thresholds: ThresholdsView {
            answer_alpha: match env.answer_alpha {
                Some(x) => x@,
                None => config.thresholds.answer_alpha,
            },
            abstain_beta: match env.abstain_beta {
                Some(x) => x@,
                None => config.thresholds.abstain_beta,
            },
            min_tokens: overridden(
                config.thresholds.min_tokens,
                number_override(env.min_tokens, usize::MAX as nat),
            ),
            degenerate_guard: config.thresholds.degenerate_guard,
        },
        inject_logprobs: overridden(config.inject_logprobs, bool_override(env.inject_logprobs)),
        max_body_bytes: overridden(
            config.max_body_bytes,
            number_override(env.max_body_bytes, usize::MAX as nat),
        ),
        connect_timeout_secs: overridden(
            config.connect_timeout_secs,
            number_override(env.connect_timeout_secs, u64::MAX as nat),
        ),
    }
}

fn number_of(text: &Option<String>, max: u64) -> (r: Option<u64>)
    ensures
        r == (match number_override(*text, max as nat) {
            Some(n) => Some(n as u64),
            None => None::<u64>,
        }),
        r matches Some(n) ==> number_override(*text, max as nat) == Some(n as nat),
{
    match text {
        Some(s) => parse_natural(s.as_str(), max),
        None => None,
    }
}

fn bool_of(text: &Option<String>) -> (r: Option<bool>)
    ensures
        r == bool_override(*text),
{
    match text {
        Some(s) => if same_text(s.as_str(), "true") {
            Some(true)
        } else if same_text(s.as_str(), "false") {
            Some(false)
        } else {
            None
        },
        None => None,
    }
}

/// The path of the configuration file: what `RAGGATE_CONFIG` is set to, or
/// `rag-gate.toml`.
pub fn config_path(set: Option<String>) -> (r: String)
    ensures
        r@ == match set {
            Some(path) => path@,
            None => "rag-gate.toml"@,
        },
{
    match set {
        Some(path) => path,
        None => "rag-gate.toml".to_owned(),
    }
}

impl ProxyConfig {
    /// The settings of a file.
    pub fn from(toml: TomlConfig) -> (r: ProxyConfig)
        ensures
            r@ == file_config(toml),
    {
        ProxyConfig {
            listen_addr: match toml.proxy.listen_addr {
                Some(s) => s,
                None => default_listen_addr(),
            },
            upstream_url: match toml.proxy.upstream_url {
                Some(s) => s,
                None => default_upstream_url(),
            },
            thresholds: match toml.thresholds {
                Some(t) => GatingThresholds::from(t),
                None => GatingThresholds::default(),
            },
            inject_logprobs: pick(
                toml.proxy.inject_logprobs,
                toml.inject_logprobs,
                default_inject_logprobs(),
            ),
            max_body_bytes: pick(
                toml.proxy.max_body_bytes,
                toml.max_body_bytes,
                default_max_body_bytes(),
            ),
            connect_timeout_secs: pick(
                toml.proxy.connect_timeout_secs,
                toml.connect_timeout_secs,
                default_connect_timeout_secs(),
            ),
        }
    }

    /// The settings of the file, or the defaults where there is no file that
    /// could be read, with the environment's settings on top.
    pub fn load(file: Option<TomlConfig>, env: EnvOverrides) -> (r: ProxyConfig)
        ensures
            r@ == env_config(
                match file {
                    Some(toml) => file_config(toml),
                    None => default_config(),
                },
                env,
            ),
    {
        let mut config = match file {
            Some(toml) => ProxyConfig::from(toml),
            None => ProxyConfig::default(),
        };
        let min_tokens = number_of(&env.min_tokens, usize::MAX as u64);
        let inject = bool_of(&env.inject_logprobs);
        let max_body = number_of(&env.max_body_bytes, usize::MAX as u64);
        let timeout = number_of(&env.connect_timeout_secs, u64::MAX);
        if let Some(addr) = env.listen_addr {
            config.listen_addr = addr;
        }
        if let Some(url) = env.upstream_url {
            config.upstream_url = url;
        }
        if let Some(alpha) = env.answer_alpha {
            config.thresholds.answer_alpha = alpha;
        }
        if let Some(beta) = env.abstain_beta {
            config.thresholds.abstain_beta = beta;
        }
        if let Some(n) = min_tokens {
            config.thresholds.min_tokens = n as usize;
        }
        if let Some(b) = inject {
            config.inject_logprobs = b;
        }
        if let Some(n) = max_body {
            config.max_body_bytes = n as usize;
        }
        if let Some(n) = timeout {
            config.connect_timeout_secs = n;
        }
        config
    }
}

// ---------------------------------------------------------------------------
// Laws
// ---------------------------------------------------------------------------

/// The environment wins over the file: a variable that is set to a value of its
/// setting's type decides, and one that is not leaves the setting as it was.
pub proof fn law_environment_wins(config: ConfigView, env: EnvOverrides)
    ensures
        ({
            let r = env_config(config, env);
            &&& match env.listen_addr {
                Some(s) => r.listen_addr == s@,
                None => r.listen_addr == config.listen_addr,
            }
            &&& match env.upstream_url {
                Some(s) => r.upstream_url == s@,
                None => r.upstream_url == config.upstream_url,
            }
            &&& match env.answer_alpha {
                Some(x) => r.thresholds.answer_alpha == x@,
                None => r.thresholds.answer_alpha == config.thresholds.answer_alpha,
            }
            &&& match env.abstain_beta {
                Some(x) => r.thresholds.abstain_beta == x@,
                None => r.thresholds.abstain_beta == config.thresholds.abstain_beta,
            }
            &&& match number_override(env.min_tokens, usize::MAX as nat) {
                Some(n) => r.thresholds.min_tokens == n,
                None => r.thresholds.min_tokens == config.thresholds.min_tokens,
            }
            &&& match bool_override(env.inject_logprobs) {
                Some(b) => r.inject_logprobs == b,
                None => r.inject_logprobs == config.inject_logprobs,
            }
            &&& match number_override(env.max_body_bytes, usize::MAX as nat) {
                Some(n) => r.max_body_bytes == n,
                None => r.max_body_bytes == config.max_body_bytes,
            }
            &&& match number_override(env.connect_timeout_secs, u64::MAX as nat) {
                Some(n) => r.connect_timeout_secs == n,
                None => r.connect_timeout_secs == config.connect_timeout_secs,
            }
            &&& r.thresholds.degenerate_guard == config.thresholds.degenerate_guard
        }),
{
}

/// The settings that a file does not make and the environment does not either:
/// thresholds of -1/2 and -6/5 to the last bit, four tokens, the guard on, log
/// probabilities injected, two mebibytes, ten seconds, and the two addresses.
pub proof fn law_defaults()
    ensures
        ({
            let c = default_config();
            let alpha = c.thresholds.answer_alpha;
            let beta = c.thresholds.abstain_beta;
            &&& alpha is Finite && alpha.is_negative() && 2 * alpha->units == pow2(1074)
            &&& beta is Finite && beta.is_negative() && 0x20_0000_0000_0000 * distance(
                10 * beta->units,
                12 * pow2(1074),
            ) <= 12 * pow2(1074)
            &&& c.thresholds == default_thresholds()
            &&& c.thresholds.min_tokens == 4
            &&& c.thresholds.degenerate_guard
            &&& c.inject_logprobs
            &&& c.max_body_bytes == 2 * 1024 * 1024
            &&& c.connect_timeout_secs == 10
            &&& c.listen_addr == "0.0.0.0:8080"@
            &&& c.upstream_url == "https://api.openai.com"@
        }),
{
    let u = pow2(1074);
    law_small_naturals_are_exact(1);
    law_small_naturals_are_exact(2);
    law_small_naturals_are_exact(10);
    law_small_naturals_are_exact(12);
    lemma_pow2_unfold(1074);
    lemma_pow2_pos(1073);
    let h = pow2(1073);
    assert((1 * u) * u == (1 * h) * (2 * u)) by (nonlinear_arith)
        requires
            u == 2 * h,
    ;
    lemma_nearest_exact(1, 1073, 2 * u);
    assert((1 * h) * (2 * u) == 1 * pow2(1073) * (2 * u));
    lemma_pow2_strictly_increases(1073, 2098);
    law_quotient_is_close(real_of(12), real_of(10));
    let p = (12 * u) * u;
    let q = 10 * u;
    lemma2_to64_rest();
    lemma_pow2_strictly_increases(53, 1074);
    assert(p >= q * 0x10_0000_0000_0000) by (nonlinear_arith)
        requires
            p == (12 * u) * u,
            q == 10 * u,
            u >= 0x20_0000_0000_0000,
    ;
    let x = real_of(12).over(real_of(10));
    lemma_pow2_adds(1074, 1);
    lemma_pow2_strictly_increases(1075, 2097);
    lemma_pow2_unfold(2098);
    lemma2_to64();
    assert(!(2 * p >= q * pow2(2098))) by (nonlinear_arith)
        requires
            p == (12 * u) * u,
            q == 10 * u,
            pow2(2098) > 4 * u,
            u >= 1,
    ;
    let b = x->units;
    assert(b * q == (10 * b) * u) by (nonlinear_arith)
        requires
            q == 10 * u,
    ;
    let d = distance(10 * b, 12 * u);
    assert(distance((10 * b) * u, (12 * u) * u) == d * u) by {
        if 10 * b <= 12 * u {
            assert((12 * u) * u - (10 * b) * u == (12 * u - 10 * b) * u) by (nonlinear_arith);
            assert((10 * b) * u <= (12 * u) * u) by (nonlinear_arith)
                requires
                    10 * b <= 12 * u,
            ;
        } else {
            assert((10 * b) * u - (12 * u) * u == (10 * b - 12 * u) * u) by (nonlinear_arith);
            assert((10 * b) * u > (12 * u) * u) by (nonlinear_arith)
                requires
                    10 * b > 12 * u,
                    u >= 1,
            ;
        }
    }
    assert(0x20_0000_0000_0000 * d <= 12 * u) by (nonlinear_arith)
        requires
            0x20_0000_0000_0000 * (d * u) <= (12 * u) * u,
            u >= 1,
    ;
}

/// What a file sets is used, what it leaves out is the default; and of a setting
/// that is made in the `[proxy]` table and at the top level the table's is used.
pub proof fn law_file_settings(toml: TomlConfig)
    ensures
        ({
            let c = file_config(toml);
            let d = default_config();
            &&& toml.proxy.listen_addr matches Some(s) ==> c.listen_addr == s@
            &&& toml.proxy.listen_addr is None ==> c.listen_addr == d.listen_addr
            &&& toml.proxy.upstream_url matches Some(s) ==> c.upstream_url == s@
            &&& toml.proxy.upstream_url is None ==> c.upstream_url == d.upstream_url
            &&& toml.proxy.inject_logprobs matches Some(b) ==> c.inject_logprobs == b
            &&& toml.proxy.inject_logprobs is None ==> {
                &&& toml.inject_logprobs matches Some(b) ==> c.inject_logprobs == b
                &&& toml.inject_logprobs is None ==> c.inject_logprobs == d.inject_logprobs
            }
            &&& toml.proxy.max_body_bytes matches Some(n) ==> c.max_body_bytes == n
            &&& toml.proxy.max_body_bytes is None ==> {
                &&& toml.max_body_bytes matches Some(n) ==> c.max_body_bytes == n
                &&& toml.max_body_bytes is None ==> c.max_body_bytes == d.max_body_bytes
            }
            &&& toml.proxy.connect_timeout_secs matches Some(n) ==> c.connect_timeout_secs == n
            &&& toml.proxy.connect_timeout_secs is None ==> {
                &&& toml.connect_timeout_secs matches Some(n) ==> c.connect_timeout_secs == n
                &&& toml.connect_timeout_secs is None ==> c.connect_timeout_secs
                    == d.connect_timeout_secs
            }
            &&& toml.thresholds is None ==> c.thresholds == d.thresholds
            &&& toml.thresholds matches Some(t) ==> c.thresholds == file_thresholds(t)
        }),
{
}

/// The same of the `[thresholds]` table.
pub proof fn law_file_thresholds(toml: TomlThresholds)
    ensures
        ({
            let t = file_thresholds(toml);
            &&& t.answer_alpha == toml.answer_alpha@
            &&& t.abstain_beta == toml.abstain_beta@
            &&& toml.min_tokens matches Some(n) ==> t.min_tokens == n
            &&& toml.min_tokens is None ==> t.min_tokens == 4
            &&& toml.degenerate_guard matches Some(b) ==> t.degenerate_guard == b
            &&& toml.degenerate_guard is None ==> t.degenerate_guard
        }),
{
}

/// A variable for a number counts where its text denotes one that fits, such as its
/// digits with or without a plus sign; and not where it is not set.
pub proof fn law_number_variable(text: String, n: nat, max: nat)
    ensures
        text@ == decimal(n) || text@ == seq!['+'] + decimal(n) ==> number_override(
            Some(text),
            max,
        ) == (if n <= max {
            Some(n)
        } else {
            None
        }),
        natural(text@) matches Some(k) ==> number_override(Some(text), max) == (if k <= max {
            Some(k)
        } else {
            None
        }),
        natural(text@) is None ==> number_override(Some(text), max) is None,
        number_override(None, max) is None,
{
    law_decimal_reads_back(n);
    let digits = decimal(n);
    let plus = seq!['+'] + digits;
    assert(plus.skip(1) =~= digits);
    lemma_decimal_starts_with_a_digit(n);
}

proof fn lemma_decimal_starts_with_a_digit(n: nat)
    ensures
        decimal(n).len() > 0,
        '0' <= decimal(n)[0] <= '9',
    decreases n,
{
    if n >= 10 {
        lemma_decimal_starts_with_a_digit(n / 10);
    }
}

/// A variable for a truth value counts where its text is `true` or `false`.
pub proof fn law_truth_variable(text: String)
    ensures
        text@ == "true"@ ==> bool_override(Some(text)) == Some(true),
        text@ == "false"@ ==> bool_override(Some(text)) == Some(false),
        text@ != "true"@ && text@ != "false"@ ==> bool_override(Some(text)) is None,
        bool_override(None) is None,
{
    reveal_strlit("true");
    reveal_strlit("false");
    assert("true"@.len() != "false"@.len());
}

/// The views show every field as it is.
pub proof fn law_settings_are_seen(t: GatingThresholds, c: ProxyConfig)
    ensures
        t@.answer_alpha == t.answer_alpha@,
        t@.abstain_beta == t.abstain_beta@,
        t@.min_tokens == t.min_tokens,
        t@.degenerate_guard == t.degenerate_guard,
        c@.listen_addr == c.listen_addr@,
        c@.upstream_url == c.upstream_url@,
        c@.thresholds == c.thresholds@,
        c@.inject_logprobs == c.inject_logprobs,
        c@.max_body_bytes == c.max_body_bytes,
        c@.connect_timeout_secs == c.connect_timeout_secs,
{
}

} // verus!
