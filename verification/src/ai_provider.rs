//! Choosing how the reasoning is provided, and when a failed model request
//! is retried.
//!
//! The choice is explicit first, then the `MUSICOS_AI_PROVIDER` setting, then
//! auto-detection (the assistant CLI on the user's subscription before API
//! credentials). Probing the machine is the caller's; given what the probes
//! found, the decision is made here.

use vstd::prelude::*;
use crate::text::{chars_eq, chars_of, string_of};

verus! {

/// How the user wants the reasoning provided.
#[derive(Debug, Clone, Copy, PartialEq, Eq, Structural)]
pub enum Provider {
    /// Local assistant CLI on the user's subscription (no API keys).
    Subscription,
    /// Direct Anthropic API with `ANTHROPIC_API_KEY` / `ANTHROPIC_AUTH_TOKEN`.
    Api,
}

/// Errors from provider resolution and subscription runs.
#[derive(Debug, Clone, PartialEq, Eq)]
pub enum ProviderError {
    /// Neither the assistant CLI nor API credentials are available.
    NoneAvailable,
    /// An unknown provider name.
    Unknown(String),
    /// API mode without credentials in the environment.
    NoApiCredentials,
    /// The MCP server binary could not be found.
    ServerBinaryNotFound,
    /// The assistant CLI exited with a failure status.
    CliExit(i32),
    /// An I/O failure, described.
    Io(String),
}

/// Whether a choice names a provider mode.
pub open spec fn choice_known(choice: Seq<char>) -> bool {
    choice == "subscription"@ || choice == "sub"@ || choice == "api"@ || choice == "auto"@
}

/// The provider a known choice selects, given what auto-detection found
/// (`None`: auto found nothing).
pub open spec fn provider_for(choice: Seq<char>, cli_available: bool, credentials_present: bool) -> Option<
    Provider,
> {
    if choice == "subscription"@ || choice == "sub"@ {
        Some(Provider::Subscription)
    } else if choice == "api"@ {
        Some(Provider::Api)
    } else if cli_available {
        Some(Provider::Subscription)
    } else if credentials_present {
        Some(Provider::Api)
    } else {
        None
    }
}

/// Decimal digits of a natural number.
pub open spec fn digits(n: nat) -> Seq<char>
    decreases n,
{
    if n < 10 {
        seq![(('0' as u32) + n) as char]
    } else {
        digits(n / 10).push((('0' as u32) + n % 10) as char)
    }
}

/// Decimal text of an integer, with a minus sign when negative.
pub open spec fn decimal(n: int) -> Seq<char> {
    if n < 0 {
        seq!['-'] + digits((-n) as nat)
    } else {
        digits(n as nat)
    }
}

/// The character of a decimal digit.
fn digit_char(d: u64) -> (c: char)
    requires
        d < 10,
    ensures
        c == ((('0' as u32) + d) as char),
{
    ((48u8 + d as u8) as char)
}

/// Appends the decimal digits of `n`.
fn push_digits(out: &mut Vec<char>, n: u64)
    ensures
        final(out)@ == old(out)@ + digits(n as nat),
    decreases n,
{
    if n >= 10 {
        push_digits(out, n / 10);
    }
    out.push(digit_char(n % 10));
}

/// The decimal text of `n`.
pub fn decimal_string(n: i64) -> (r: String)
    ensures
        r@ == decimal(n as int),
{
    let mut out: Vec<char> = Vec::new();
    if n < 0 {
        out.push('-');
        push_digits(&mut out, (-(n as i128)) as u64);
    } else {
        push_digits(&mut out, n as u64);
    }
    string_of(&out)
}

impl Provider {
    /// Resolves a provider choice (`subscription` or `sub`, `api`, or `auto`)
    /// given whether the assistant CLI answers and whether API credentials are
    /// set. Auto prefers the subscription; an unknown name is returned in the
    /// error.
    pub fn from_choice(choice: &str, cli_available: bool, credentials_present: bool) -> (r: Result<
        Provider,
        ProviderError,
    >)
        ensures
            choice_known(choice@) && provider_for(choice@, cli_available, credentials_present) is Some
                ==> r == Ok::<Provider, ProviderError>(
                provider_for(choice@, cli_available, credentials_present)->0,
            ),
            choice_known(choice@) && provider_for(choice@, cli_available, credentials_present) is None
                ==> r == Err::<Provider, ProviderError>(ProviderError::NoneAvailable),
            !choice_known(choice@) ==> (r matches Err(ProviderError::Unknown(name)) && name@
                == choice@),
    {
        let c = chars_of(choice);
        if chars_eq(&c, "subscription") || chars_eq(&c, "sub") {
            Ok(Provider::Subscription)
        } else if chars_eq(&c, "api") {
            Ok(Provider::Api)
        } else if chars_eq(&c, "auto") {
            if cli_available {
                Ok(Provider::Subscription)
            } else if credentials_present {
                Ok(Provider::Api)
            } else {
                Err(ProviderError::NoneAvailable)
            }
        } else {
            Err(ProviderError::Unknown(string_of(&c)))
        }
    }

    /// Resolves the provider: the explicit choice, else the configured one
    /// (`MUSICOS_AI_PROVIDER`), else `auto`, given what auto-detection found.
    pub fn resolve(
        explicit: Option<&str>,
        configured: Option<String>,
        cli_available: bool,
        credentials_present: bool,
    ) -> (r: Result<Provider, ProviderError>)
        ensures
            ({
                let c = match explicit {
                    Some(e) => e@,
                    None => match configured {
                        Some(x) => x@,
                        None => "auto"@,
                    },
                };
                &&& choice_known(c) && provider_for(c, cli_available, credentials_present) is Some
                    ==> r == Ok::<Provider, ProviderError>(
                    provider_for(c, cli_available, credentials_present)->0,
                )
                &&& choice_known(c) && provider_for(c, cli_available, credentials_present) is None
                    ==> r == Err::<Provider, ProviderError>(ProviderError::NoneAvailable)
                &&& !choice_known(c) ==> (r matches Err(ProviderError::Unknown(name)) && name@ == c)
            }),
    {
        let choice = Provider::effective_choice(explicit, configured);
        Provider::from_choice(choice.as_str(), cli_available, credentials_present)
    }

    /// The choice in effect: the explicit one, else the configured one, else
    /// `auto`.
    pub fn effective_choice(explicit: Option<&str>, configured: Option<String>) -> (r: String)
        ensures
            explicit matches Some(e) ==> r@ == e@,
            explicit is None && configured is Some ==> r@ == configured->0@,
            explicit is None && configured is None ==> r@ == "auto"@,
    {
        match explicit {
            Some(e) => string_of(&chars_of(e)),
            None => match configured {
                Some(c) => c,
                None => String::from_str("auto"),
            },
        }
    }
}

/// What to do after a failed request.
#[derive(Debug, Clone, Copy, PartialEq, Eq, Structural)]
pub enum Retry {
    /// Wait this many seconds, then try again.
    After(u64),
    /// Stop and report the failure.
    GiveUp,
}

/// The largest wait between attempts, in seconds.
pub const MAX_WAIT_SECS: u64 = 30;

/// Two to the `n`.
pub open spec fn pow2(n: nat) -> nat
    decreases n,
{
    if n == 0 {
        1
    } else {
        2 * pow2((n - 1) as nat)
    }
}

/// `2^n` for `n < 64`.
fn pow2_u64(n: u32) -> (r: u64)
    requires
        n < 64,
    ensures
        r == pow2(n as nat),
{
    let mut r: u64 = 1;
    let mut i: u32 = 0;
    while i < n
        invariant
            i <= n < 64,
            r == pow2(i as nat),
            pow2(i as nat) <= 0x8000_0000_0000_0000,
        decreases n - i,
    {
        proof {
            lemma_pow2_bound(i as nat);
            if i + 1 < 64 {
                lemma_pow2_bound((i + 1) as nat);
            }
        }
        r = r * 2;
        i = i + 1;
    }
    r
}

proof fn lemma_pow2_mono(a: nat, b: nat)
    requires
        a <= b,
    ensures
        pow2(a) <= pow2(b),
    decreases b,
{
    if a < b {
        lemma_pow2_mono(a, (b - 1) as nat);
    }
}

proof fn lemma_pow2_bound(n: nat)
    requires
        n < 64,
    ensures
        pow2(n) <= 0x8000_0000_0000_0000,
{
    lemma_pow2_mono(n, 63);
    assert(pow2(63) == 0x8000_0000_0000_0000) by {
        reveal_with_fuel(pow2, 64);
    }
}

/// The retry decision after an HTTP status `code` on attempt `attempt`
/// (from zero): 429 and 5xx are retried while attempts remain, waiting what
/// the server asked for or else `2^attempt` seconds, at most 30.
pub open spec fn status_retry(code: u16, attempt: u32, max_retries: u32, retry_after: Option<u64>) -> Retry {
    if (code == 429 || code >= 500) && attempt < max_retries {
        let wait: int = match retry_after {
            Some(s) => s as int,
            None => pow2(attempt as nat) as int,
        };
        Retry::After(if wait < 30 { wait as u64 } else { 30 })
    } else {
        Retry::GiveUp
    }
}

/// The retry decision after a transport failure: retried while attempts
/// remain, waiting `2^attempt` seconds, at most 30.
pub open spec fn transport_retry(attempt: u32, max_retries: u32) -> Retry {
    if attempt < max_retries {
        Retry::After(if pow2(attempt as nat) < 30 { pow2(attempt as nat) as u64 } else { 30 })
    } else {
        Retry::GiveUp
    }
}

/// Decides whether to retry after an HTTP error status.
pub fn retry_after_status(code: u16, attempt: u32, max_retries: u32, retry_after: Option<u64>) -> (r:
    Retry)
    requires
        max_retries <= 64,
    ensures
        r == status_retry(code, attempt, max_retries, retry_after),
{
    if (code == 429 || code >= 500) && attempt < max_retries {
        let wait = match retry_after {
            Some(s) => s,
            None => pow2_u64(attempt),
        };
        Retry::After(if wait < MAX_WAIT_SECS {
            wait
        } else {
            MAX_WAIT_SECS
        })
    } else {
        Retry::GiveUp
    }
}

/// Decides whether to retry after a transport failure.
pub fn retry_after_transport(attempt: u32, max_retries: u32) -> (r: Retry)
    requires
        max_retries <= 64,
    ensures
        r == transport_retry(attempt, max_retries),
{
    if attempt < max_retries {
        let wait = pow2_u64(attempt);
        Retry::After(if wait < MAX_WAIT_SECS {
            wait
        } else {
            MAX_WAIT_SECS
        })
    } else {
        Retry::GiveUp
    }
}

/// Appends the characters of `s`.
fn push_str(v: &mut Vec<char>, s: &str)
    ensures
        final(v)@ == old(v)@ + s@,
{
    let c = chars_of(s);
    let ghost start = v@;
    let mut i: usize = 0;
    while i < c.len()
        invariant
            i <= c@.len(),
            c@ == s@,
            v@ == start + c@.subrange(0, i as int),
        decreases c@.len() - i,
    {
        v.push(c[i]);
        i += 1;
    }
    assert(c@.subrange(0, c@.len() as int) =~= c@);
}

impl ProviderError {
    /// Human-readable, actionable description.
    pub fn message(&self) -> (r: String)
        ensures
            self is NoneAvailable ==> r@
                == "no AI provider available \u{2014} install the assistant CLI (subscription mode) or set ANTHROPIC_API_KEY (api mode); choose explicitly with --provider"@,
            self matches ProviderError::Unknown(n) ==> r@ == "unknown provider '"@ + n@
                + "' (expected: subscription | api | auto)"@,
            self is NoApiCredentials ==> r@
                == "api mode needs ANTHROPIC_API_KEY or ANTHROPIC_AUTH_TOKEN in the environment"@,
            self is ServerBinaryNotFound ==> r@
                == "music-server binary not found next to the CLI or on PATH \u{2014} build with `cargo build`"@,
            self matches ProviderError::CliExit(c) ==> r@ == "assistant CLI exited with status "@
                + decimal(c as int),
            self matches ProviderError::Io(m) ==> r@ == m@,
    {
        match self {
            ProviderError::NoneAvailable => String::from_str(
                "no AI provider available \u{2014} install the assistant CLI (subscription mode) or set ANTHROPIC_API_KEY (api mode); choose explicitly with --provider",
            ),
            ProviderError::Unknown(n) => {
                let mut v: Vec<char> = Vec::new();
                push_str(&mut v, "unknown provider '");
                push_str(&mut v, n.as_str());
                push_str(&mut v, "' (expected: subscription | api | auto)");
                string_of(&v)
            },
            ProviderError::NoApiCredentials => String::from_str(
                "api mode needs ANTHROPIC_API_KEY or ANTHROPIC_AUTH_TOKEN in the environment",
            ),
            ProviderError::ServerBinaryNotFound => String::from_str(
                "music-server binary not found next to the CLI or on PATH \u{2014} build with `cargo build`",
            ),
            ProviderError::CliExit(c) => {
                let mut v: Vec<char> = Vec::new();
                push_str(&mut v, "assistant CLI exited with status ");
                let d = decimal_string(*c as i64);
                push_str(&mut v, d.as_str());
                string_of(&v)
            },
            ProviderError::Io(m) => string_of(&chars_of(m.as_str())),
        }
    }
}

} // verus!
