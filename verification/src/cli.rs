//! The benchmark configuration: the option record handed in by the command
//! line, and the suffixed duration grammar (`100ms`, `10s`, `5m`, `1h`,
//! plain seconds otherwise).

use vstd::prelude::*;

use crate::text::{all_digits, chars_of, dec_value, parse_u64_range, spec_trim, trim_chars};

verus! {

/// A configuration rejected before any worker is spawned.
#[derive(Clone, Copy, Debug, PartialEq, Eq, Structural)]
pub enum ConfigError {
    /// The duration string does not follow the suffixed grammar, or does not
    /// fit in a millisecond count.
    InvalidDuration,
    /// No target URL or curl command was supplied.
    NoUrl,
}

impl ConfigError {
    /// A short description, used as a report line.
    pub fn message(&self) -> (r: &'static str)
        ensures
            self is InvalidDuration ==> r@ == "invalid duration string"@,
            self is NoUrl ==> r@ == "no URL or curl command provided"@,
    {
        match self {
            ConfigError::InvalidDuration => "invalid duration string",
            ConfigError::NoUrl => "no URL or curl command provided",
        }
    }
}

/// The benchmark options.  Paths are carried as plain strings; the caller
/// resolves them.
pub struct Args {
    /// Target URL to benchmark.
    pub url: Option<String>,
    /// Number of HTTP connections to keep open.
    pub connections: usize,
    /// Duration of the test, in the suffixed grammar.
    pub duration: String,
    /// Number of worker threads; 0 means one per physical core.
    pub threads: usize,
    /// Per-task requests/sec cap; 0 means unlimited.
    pub rate: u32,
    /// Per-request timeout, in the suffixed grammar.
    pub timeout: String,
    /// A curl command to parse into a request template.
    pub parse_curl: Option<String>,
    /// A file of curl commands, one per line.
    pub parse_curl_file: Option<String>,
    /// Load distribution strategy: `random` or `round-robin`.
    pub load_strategy: String,
    /// HTTP method for the single-URL mode.
    pub method: String,
    /// Extra request headers, each as `Name: value`.
    pub headers: Vec<String>,
    /// Request body for the single-URL mode.
    pub data: Option<String>,
    /// Content-Type header value.
    pub content_type: Option<String>,
    /// Verbose output.
    pub verbose: bool,
    /// Print the latency percentile table.
    pub latency: bool,
    /// Drive the live terminal UI.
    pub live_ui: bool,
    /// Force the standard-library client.
    pub use_nethttp: bool,
    /// Negotiate HTTP/2 in addition to HTTP/1.1.
    pub http2: bool,
    /// Start the mock HTTP server instead of benchmarking.
    pub mock_server: bool,
    /// Mock server port.
    pub mock_port: u16,
    /// Mock server response delay, in the suffixed grammar.
    pub mock_delay: Option<String>,
    /// Mock server response body.
    pub mock_response: Option<String>,
    /// Mock server status code.
    pub mock_status: u16,
    /// Mock server configuration file path.
    pub mock_config: Option<String>,
    /// Batch configuration file path.
    pub batch_config: Option<String>,
    /// Maximum concurrent batch tests.
    pub batch_concurrency: usize,
    /// Run batch tests sequentially.
    pub batch_sequential: bool,
    /// Batch report format: `text`, `csv` or `json`.
    pub batch_report: String,
    /// Template variable definitions, each as `name=definition`.
    pub vars: Vec<String>,
    /// Show the template variable help.
    pub help_templates: bool,
}

/// The number written by `d`: an optional leading `+`, then decimal digits,
/// fitting in a `u64`.
pub open spec fn is_u64_num(d: Seq<char>) -> bool {
    let t = if d.len() > 0 && d[0] == '+' {
        d.drop_first()
    } else {
        d
    };
    t.len() > 0 && all_digits(t) && dec_value(t) <= u64::MAX
}

pub open spec fn num_val(d: Seq<char>) -> int {
    if d.len() > 0 && d[0] == '+' {
        dec_value(d.drop_first())
    } else {
        dec_value(d)
    }
}

/// The number written by `d`, scaled into milliseconds, when it is
/// well-formed and the result fits in a `u64`.
pub open spec fn num_to_ms(d: Seq<char>, scale: int) -> Option<u64> {
    if is_u64_num(d) && num_val(d) * scale <= u64::MAX {
        Some((num_val(d) * scale) as u64)
    } else {
        None
    }
}

/// The suffixed duration grammar, evaluated to milliseconds: `ms` for
/// milliseconds, `s` for seconds, `m` for minutes, `h` for hours, and plain
/// seconds with no suffix.  Surrounding spaces are ignored.
pub open spec fn spec_parse_duration_ms(raw: Seq<char>) -> Option<u64> {
    let s = spec_trim(raw);
    if s.len() >= 2 && s[s.len() - 2] == 'm' && s[s.len() - 1] == 's' {
        num_to_ms(s.subrange(0, s.len() - 2), 1)
    } else if s.len() >= 1 && s[s.len() - 1] == 's' {
        num_to_ms(s.subrange(0, s.len() - 1), 1000)
    } else if s.len() >= 1 && s[s.len() - 1] == 'm' {
        num_to_ms(s.subrange(0, s.len() - 1), 60000)
    } else if s.len() >= 1 && s[s.len() - 1] == 'h' {
        num_to_ms(s.subrange(0, s.len() - 1), 3600000)
    } else {
        num_to_ms(s, 1000)
    }
}

/// Parses the number written in `v[..to]` and scales it to milliseconds.
fn parse_num_scaled(v: &Vec<char>, to: usize, scale: u64) -> (r: Result<u64, ConfigError>)
    requires
        to <= v@.len(),
        1 <= scale <= 3600000,
    ensures
        ({
            let d = v@.subrange(0, to as int);
            &&& (r matches Ok(ms) ==> num_to_ms(d, scale as int) == Some(ms))
            &&& (r is Err <==> num_to_ms(d, scale as int) is None)
            &&& (r matches Err(e) ==> e == ConfigError::InvalidDuration)
        }),
{
    let ghost d = v@.subrange(0, to as int);
    let from: usize = if to > 0 && v[0] == '+' {
        1
    } else {
        0
    };
    proof {
        if from == 1 {
            assert(d.drop_first() =~= v@.subrange(1, to as int));
        }
    }
    match parse_u64_range(v, from, to) {
        Some(n) => match n.checked_mul(scale) {
            Some(ms) => Ok(ms),
            None => Err(ConfigError::InvalidDuration),
        },
        None => Err(ConfigError::InvalidDuration),
    }
}

/// Parses a suffixed duration string to milliseconds, exactly as
/// `spec_parse_duration_ms` describes.
pub fn parse_duration_string(s: &str) -> (r: Result<u64, ConfigError>)
    ensures
        (r matches Ok(ms) ==> spec_parse_duration_ms(s@) == Some(ms)),
        (r is Err <==> spec_parse_duration_ms(s@) is None),
        (r matches Err(e) ==> e == ConfigError::InvalidDuration),
{
    let cs = chars_of(s);
    let t = trim_chars(&cs);
    let n = t.len();
    if n >= 2 && t[n - 2] == 'm' && t[n - 1] == 's' {
        parse_num_scaled(&t, n - 2, 1)
    } else if n >= 1 && t[n - 1] == 's' {
        parse_num_scaled(&t, n - 1, 1000)
    } else if n >= 1 && t[n - 1] == 'm' {
        parse_num_scaled(&t, n - 1, 60000)
    } else if n >= 1 && t[n - 1] == 'h' {
        parse_num_scaled(&t, n - 1, 3600000)
    } else {
        proof {
            assert(t@.subrange(0, n as int) =~= t@);
        }
        parse_num_scaled(&t, n, 1000)
    }
}

impl Args {
    /// The test duration in milliseconds.
    pub fn parse_duration(&self) -> (r: Result<u64, ConfigError>)
        ensures
            (r matches Ok(ms) ==> spec_parse_duration_ms(self.duration@) == Some(ms)),
            (r is Err <==> spec_parse_duration_ms(self.duration@) is None),
            (r matches Err(e) ==> e == ConfigError::InvalidDuration),
    {
        parse_duration_string(self.duration.as_str())
    }

    /// The per-request timeout in milliseconds.
    pub fn parse_timeout(&self) -> (r: Result<u64, ConfigError>)
        ensures
            (r matches Ok(ms) ==> spec_parse_duration_ms(self.timeout@) == Some(ms)),
            (r is Err <==> spec_parse_duration_ms(self.timeout@) is None),
            (r matches Err(e) ==> e == ConfigError::InvalidDuration),
    {
        parse_duration_string(self.timeout.as_str())
    }
}

} // verus!
