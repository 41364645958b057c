//! Layered configuration: defaults, then the global, workspace and project
//! files, then the `MUSICOS_*` environment. Later layers win field by field;
//! an environment value that does not parse adds a warning and keeps the
//! prior value. Reading files and the environment is the caller's; merging
//! and parsing is here.

use vstd::prelude::*;
use crate::float::Float32;
use crate::text::{chars_of, copy_string, string_of};

verus! {

broadcast use vstd::seq_lib::group_seq_properties;

/// AI runtime settings.
#[derive(Debug, Clone, PartialEq, Eq)]
pub struct AiConfig {
    /// Provider identifier; `None` lets the runtime choose.
    pub provider: Option<String>,
    /// Model identifier passed to the provider.
    pub model: String,
    /// Maximum number of agent turns per task.
    pub max_turns: u32,
}

impl Default for AiConfig {
    fn default() -> (r: AiConfig)
        ensures
            r.provider is None,
            r.model@ == "opus-4-8"@,
            r.max_turns == 16,
    {
        AiConfig { provider: None, model: String::from_str("opus-4-8"), max_turns: 16 }
    }
}

/// Offline render settings.
#[derive(Debug, Clone, PartialEq, Eq)]
pub struct RenderConfig {
    /// Output sample rate in Hz.
    pub sample_rate: u32,
    /// Extra tail rendered after the last event, in seconds (binary32).
    pub tail_seconds: Float32,
}

/// The encoding of `0.5`.
pub const HALF_SECOND_BITS: u32 = 0x3F00_0000;

impl Default for RenderConfig {
    fn default() -> (r: RenderConfig)
        ensures
            r.sample_rate == 48_000,
            r.tail_seconds.bits == HALF_SECOND_BITS,
    {
        RenderConfig { sample_rate: 48_000, tail_seconds: Float32 { bits: HALF_SECOND_BITS } }
    }
}

/// Fully-resolved configuration.
#[derive(Debug, Clone, PartialEq, Eq)]
pub struct Config {
    /// AI runtime settings.
    pub ai: AiConfig,
    /// Offline render settings.
    pub render: RenderConfig,
}

impl Default for Config {
    fn default() -> (r: Config)
        ensures
            r.ai.provider is None,
            r.ai.model@ == "opus-4-8"@,
            r.ai.max_turns == 16,
            r.render.sample_rate == 48_000,
            r.render.tail_seconds.bits == HALF_SECOND_BITS,
    {
        Config { ai: AiConfig::default(), render: RenderConfig::default() }
    }
}

/// The merged configuration plus non-fatal warnings.
#[derive(Debug, Clone, PartialEq, Eq)]
pub struct LoadedConfig {
    /// The merged configuration.
    pub config: Config,
    /// Human-readable warnings (malformed files, unparseable values).
    pub warnings: Vec<String>,
}

impl LoadedConfig {
    /// Defaults, with no warnings.
    pub fn new() -> (r: LoadedConfig)
        ensures
            r.config.ai.provider is None,
            r.config.ai.model@ == "opus-4-8"@,
            r.config.ai.max_turns == 16,
            r.config.render.sample_rate == 48_000,
            r.config.render.tail_seconds.bits == HALF_SECOND_BITS,
            r.warnings@.len() == 0,
    {
        LoadedConfig { config: Config::default(), warnings: Vec::new() }
    }
}

/// One file layer: every field optional.
#[derive(Debug, Clone, PartialEq, Eq)]
pub struct ConfigLayer {
    /// `ai.provider`.
    pub provider: Option<String>,
    /// `ai.model`.
    pub model: Option<String>,
    /// `ai.max_turns`.
    pub max_turns: Option<u32>,
    /// `render.sample_rate`.
    pub sample_rate: Option<u32>,
    /// `render.tail_seconds`.
    pub tail_seconds: Option<Float32>,
}

/// The value after a layer that may set it.
pub open spec fn overridden<T>(prior: T, layer: Option<T>) -> T {
    match layer {
        Some(v) => v,
        None => prior,
    }
}

/// The text view of an optional string.
pub open spec fn opt_view(o: Option<String>) -> Option<Seq<char>> {
    match o {
        Some(s) => Some(s@),
        None => None,
    }
}

/// A copy of an optional string.
fn copy_opt(o: &Option<String>) -> (r: Option<String>)
    ensures
        opt_view(r) == opt_view(*o),
{
    match o {
        Some(s) => Some(copy_string(s)),
        None => None,
    }
}

impl ConfigLayer {
    /// A layer that sets nothing.
    pub fn empty() -> (r: ConfigLayer)
        ensures
            r.provider is None && r.model is None && r.max_turns is None,
            r.sample_rate is None && r.tail_seconds is None,
    {
        ConfigLayer { provider: None, model: None, max_turns: None, sample_rate: None, tail_seconds: None }
    }

    /// Overrides on `config` exactly the fields this layer sets.
    pub fn apply(&self, config: &mut Config)
        ensures
            opt_view(final(config).ai.provider) == overridden(
                opt_view(old(config).ai.provider),
                match self.provider {
                    Some(p) => Some(Some(p@)),
                    None => None,
                },
            ),
            final(config).ai.model@ == overridden(old(config).ai.model@, opt_view(self.model)),
            final(config).ai.max_turns == overridden(old(config).ai.max_turns, self.max_turns),
            final(config).render.sample_rate == overridden(
                old(config).render.sample_rate,
                self.sample_rate,
            ),
            final(config).render.tail_seconds == overridden(
                old(config).render.tail_seconds,
                self.tail_seconds,
            ),
    {
        if let Some(p) = &self.provider {
            config.ai.provider = Some(copy_string(p));
        }
        if let Some(m) = &self.model {
            config.ai.model = copy_string(m);
        }
        if let Some(t) = self.max_turns {
            config.ai.max_turns = t;
        }
        if let Some(r) = self.sample_rate {
            config.render.sample_rate = r;
        }
        if let Some(t) = self.tail_seconds {
            config.render.tail_seconds = t;
        }
    }
}

// ---------------------------------------------------------------- numbers

/// Why a decimal number did not parse.
#[derive(Debug, Clone, Copy, PartialEq, Eq, Structural)]
pub enum ParseError {
    /// The text was empty.
    Empty,
    /// A character was not a decimal digit.
    InvalidDigit,
    /// The number does not fit in 32 bits.
    Overflow,
}

impl ParseError {
    /// The standard description of the failure.
    pub fn message(&self) -> (r: &'static str)
        ensures
            *self == ParseError::Empty ==> r@ == "cannot parse integer from empty string"@,
            *self == ParseError::InvalidDigit ==> r@ == "invalid digit found in string"@,
            *self == ParseError::Overflow ==> r@ == "number too large to fit in target type"@,
    {
        match self {
            ParseError::Empty => "cannot parse integer from empty string",
            ParseError::InvalidDigit => "invalid digit found in string",
            ParseError::Overflow => "number too large to fit in target type",
        }
    }
}

/// Whether `c` is a decimal digit.
pub open spec fn is_digit(c: char) -> bool {
    '0' <= c <= '9'
}

/// The value of a decimal digit.
pub open spec fn digit_value(c: char) -> int {
    (c as u32) - ('0' as u32)
}

/// Reading the digits of `d` from the left: the first invalid character or
/// overflow past `u32::MAX`, whichever comes first, else the value.
pub open spec fn read_digits(d: Seq<char>) -> Result<int, ParseError>
    decreases d.len(),
{
    if d.len() == 0 {
        Ok(0)
    } else {
        match read_digits(d.drop_last()) {
            Err(e) => Err(e),
            Ok(v) => if !is_digit(d.last()) {
                Err(ParseError::InvalidDigit)
            } else if v * 10 + digit_value(d.last()) > u32::MAX {
                Err(ParseError::Overflow)
            } else {
                Ok(v * 10 + digit_value(d.last()))
            },
        }
    }
}

/// Decimal parsing of an unsigned 32-bit number: an optional leading `+`,
/// then digits.
pub open spec fn parse_u32_spec(s: Seq<char>) -> Result<int, ParseError> {
    if s.len() == 0 {
        Err(ParseError::Empty)
    } else if (s[0] == '+' || s[0] == '-') && s.len() == 1 {
        Err(ParseError::InvalidDigit)
    } else if s[0] == '+' {
        read_digits(s.drop_first())
    } else {
        read_digits(s)
    }
}

/// Parses an unsigned 32-bit decimal number.
pub fn parse_u32(s: &str) -> (r: Result<u32, ParseError>)
    ensures
        r matches Ok(v) ==> parse_u32_spec(s@) == Ok::<int, ParseError>(v as int),
        r matches Err(e) ==> parse_u32_spec(s@) == Err::<int, ParseError>(e),
{
    let c = chars_of(s);
    if c.len() == 0 {
        return Err(ParseError::Empty);
    }
    if (c[0] == '+' || c[0] == '-') && c.len() == 1 {
        return Err(ParseError::InvalidDigit);
    }
    let start: usize = if c[0] == '+' {
        1
    } else {
        0
    };
    let ghost d = c@.subrange(start as int, c@.len() as int);
    proof {
        if start == 1 {
            assert(d =~= s@.drop_first());
        } else {
            assert(d =~= s@);
        }
    }
    let mut v: u32 = 0;
    let mut i: usize = start;
    assert(d.subrange(0, 0) =~= Seq::<char>::empty());
    while i < c.len()
        invariant
            start <= i <= c@.len(),
            d == c@.subrange(start as int, c@.len() as int),
            c@ == s@,
            parse_u32_spec(s@) == read_digits(d),
            read_digits(d.subrange(0, i - start)) == Ok::<int, ParseError>(v as int),
        decreases c@.len() - i,
    {
        let ch = c[i];
        proof {
            let pre = d.subrange(0, i - start);
            let next = d.subrange(0, i - start + 1);
            assert(next.drop_last() =~= pre);
            assert(next.last() == ch);
        }
        if !('0' <= ch && ch <= '9') {
            proof {
                lemma_read_error_sticks(d, (i - start + 1) as int);
            }
            return Err(ParseError::InvalidDigit);
        }
        let dv: u32 = (ch as u32) - ('0' as u32);
        if v > 429_496_729 || (v == 429_496_729 && dv > 5) {
            proof {
                lemma_read_error_sticks(d, (i - start + 1) as int);
            }
            return Err(ParseError::Overflow);
        }
        v = v * 10 + dv;
        i += 1;
    }
    assert(d.subrange(0, d.len() as int) =~= d);
    Ok(v)
}

/// Once reading a prefix fails, reading the whole fails the same way.
proof fn lemma_read_error_sticks(d: Seq<char>, n: int)
    requires
        0 <= n <= d.len(),
        read_digits(d.subrange(0, n)) is Err,
    ensures
        read_digits(d) == read_digits(d.subrange(0, n)),
    decreases d.len() - n,
{
    if n < d.len() {
        let next = d.subrange(0, n + 1);
        assert(next.drop_last() =~= d.subrange(0, n));
        lemma_read_error_sticks(d, n + 1);
    } else {
        assert(d.subrange(0, n) =~= d);
    }
}

// ---------------------------------------------------------------- environment

/// The `MUSICOS_*` values found in the environment (absent when unset).
#[derive(Debug, Clone, PartialEq, Eq)]
pub struct EnvValues {
    /// `MUSICOS_AI_PROVIDER`.
    pub provider: Option<String>,
    /// `MUSICOS_AI_MODEL`.
    pub model: Option<String>,
    /// `MUSICOS_AI_MAX_TURNS`, unparsed.
    pub max_turns: Option<String>,
    /// `MUSICOS_RENDER_SAMPLE_RATE`, unparsed.
    pub sample_rate: Option<String>,
}

/// The warning for an environment value that does not parse.
pub open spec fn env_warning(name: Seq<char>, raw: Seq<char>, e: ParseError) -> Seq<char> {
    "invalid "@ + name + "="@ + raw + ": "@ + parse_message(e)
}

/// The standard description of a parse failure.
pub open spec fn parse_message(e: ParseError) -> Seq<char> {
    match e {
        ParseError::Empty => "cannot parse integer from empty string"@,
        ParseError::InvalidDigit => "invalid digit found in string"@,
        ParseError::Overflow => "number too large to fit in target type"@,
    }
}

/// The value after a numeric environment variable: parsed, or the prior one.
pub open spec fn env_number(prior: u32, raw: Option<String>) -> u32 {
    match raw {
        Some(r) => match parse_u32_spec(r@) {
            Ok(v) => v as u32,
            Err(_) => prior,
        },
        None => prior,
    }
}

/// The warnings a numeric environment variable adds.
pub open spec fn env_warnings(name: Seq<char>, raw: Option<String>) -> Seq<Seq<char>> {
    match raw {
        Some(r) => match parse_u32_spec(r@) {
            Ok(_) => Seq::empty(),
            Err(e) => seq![env_warning(name, r@, e)],
        },
        None => Seq::empty(),
    }
}

/// The views of a list of strings.
pub open spec fn texts(v: Seq<String>) -> Seq<Seq<char>> {
    v.map_values(|s: String| s@)
}

/// Appends the characters of `s`.
fn push_text(v: &mut Vec<char>, s: &str)
    ensures
        final(v)@ == old(v)@ + s@,
{
    let c = chars_of(s);
    let ghost start = v@;
    let mut i: usize = 0;
    while i < c.len()
        invariant
            i <= c@.len(),
            c@ == s@,
            v@ == start + c@.subrange(0, i as int),
        decreases c@.len() - i,
    {
        v.push(c[i]);
        i += 1;
    }
    assert(c@.subrange(0, c@.len() as int) =~= c@);
}

/// Parses one numeric variable: `Ok` with the value, or the warning.
fn parse_env(name: &str, raw: &String) -> (r: Result<u32, String>)
    ensures
        r matches Ok(v) ==> parse_u32_spec(raw@) == Ok::<int, ParseError>(v as int),
        r matches Err(w) ==> parse_u32_spec(raw@) is Err && w@ == env_warning(
            name@,
            raw@,
            parse_u32_spec(raw@)->Err_0,
        ),
{
    match parse_u32(raw.as_str()) {
        Ok(v) => Ok(v),
        Err(e) => {
            let mut w: Vec<char> = Vec::new();
            push_text(&mut w, "invalid ");
            push_text(&mut w, name);
            push_text(&mut w, "=");
            push_text(&mut w, raw.as_str());
            push_text(&mut w, ": ");
            push_text(&mut w, e.message());
            Err(string_of(&w))
        },
    }
}

impl LoadedConfig {
    /// Applies the environment layer: provider and model as given; the
    /// numeric values parsed, where a parse failure adds a warning and keeps
    /// the prior value.
    pub fn apply_env(&mut self, env: &EnvValues)
        ensures
            opt_view(final(self).config.ai.provider) == match env.provider {
                Some(p) => Some(p@),
                None => opt_view(old(self).config.ai.provider),
            },
            final(self).config.ai.model@ == overridden(old(self).config.ai.model@, opt_view(env.model)),
            final(self).config.ai.max_turns == env_number(old(self).config.ai.max_turns, env.max_turns),
            final(self).config.render.sample_rate == env_number(
                old(self).config.render.sample_rate,
                env.sample_rate,
            ),
            final(self).config.render.tail_seconds == old(self).config.render.tail_seconds,
            texts(final(self).warnings@) == texts(old(self).warnings@) + env_warnings(
                "MUSICOS_AI_MAX_TURNS"@,
                env.max_turns,
            ) + env_warnings("MUSICOS_RENDER_SAMPLE_RATE"@, env.sample_rate),
    {
        let ghost w0 = texts(self.warnings@);
        if let Some(p) = &env.provider {
            self.config.ai.provider = Some(copy_string(p));
        }
        if let Some(m) = &env.model {
            self.config.ai.model = copy_string(m);
        }
        if let Some(raw) = &env.max_turns {
            match parse_env("MUSICOS_AI_MAX_TURNS", raw) {
                Ok(v) => {
                    self.config.ai.max_turns = v;
                },
                Err(w) => {
                    self.warnings.push(w);
                },
            }
        }
        let ghost w1 = texts(self.warnings@);
        proof {
            assert(w1 =~= w0 + env_warnings("MUSICOS_AI_MAX_TURNS"@, env.max_turns));
        }
        if let Some(raw) = &env.sample_rate {
            match parse_env("MUSICOS_RENDER_SAMPLE_RATE", raw) {
                Ok(v) => {
                    self.config.render.sample_rate = v;
                },
                Err(w) => {
                    self.warnings.push(w);
                },
            }
        }
        proof {
            assert(texts(self.warnings@) =~= w1 + env_warnings(
                "MUSICOS_RENDER_SAMPLE_RATE"@,
                env.sample_rate,
            ));
        }
    }
}

} // verus!
