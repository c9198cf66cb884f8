//! The batch runner's configuration records, and how one batch test
//! becomes engine options.  Reading configuration files and
//! iterating the engine happen outside the library.

use vstd::prelude::*;

use crate::cli::Args;
use crate::curl::CurlCommand;

verus! {

/// One test of a batch.
pub struct TestConfig {
    pub name: String,
    /// The curl command to benchmark.
    pub curl: String,
    pub connections: usize,
    pub duration: String,
    pub threads: usize,
    pub rate: u32,
    pub timeout: String,
    pub verbose: bool,
    pub use_nethttp: bool,
}

/// A whole batch.
pub struct BatchConfig {
    pub version: String,
    pub tests: Vec<TestConfig>,
}

pub fn default_connections() -> (r: usize)
    ensures
        r == 10,
{
    10
}

pub fn default_duration() -> (r: String)
    ensures
        r@ == "10s"@,
{
    "10s".to_owned()
}

pub fn default_threads() -> (r: usize)
    ensures
        r == 2,
{
    2
}

pub fn default_timeout() -> (r: String)
    ensures
        r@ == "30s"@,
{
    "30s".to_owned()
}

/// The engine options one batch test runs with: the parsed command's
/// target and shape, the test's sizing, and everything else off.
pub fn build_test_args(test: &TestConfig, cmd: &CurlCommand) -> (a: Args)
    ensures
        (a.url matches Some(u) && u@ == cmd.url@),
        a.connections == test.connections,
        a.duration@ == test.duration@,
        a.threads == test.threads,
        a.rate == test.rate,
        a.timeout@ == test.timeout@,
        a.method@ == cmd.method@,
        a.headers@.len() == cmd.headers@.len(),
        forall|i: int|
            0 <= i < cmd.headers@.len() ==> (#[trigger] a.headers@[i])@ == cmd.headers@[i].0@
                + ": "@ + cmd.headers@[i].1@,
        (cmd.body matches Some(b) ==> (a.data matches Some(d) && d@ == b@)),
        (cmd.body is None ==> a.data is None),
        a.verbose == test.verbose,
        a.use_nethttp == test.use_nethttp,
        !a.http2,
        !a.latency,
        !a.live_ui,
        a.parse_curl is None,
        a.parse_curl_file is None,
        a.load_strategy@ == "random"@,
        a.content_type is None,
        !a.mock_server,
        a.mock_port == 8080,
        a.mock_delay is None,
        a.mock_response is None,
        a.mock_status == 200,
        a.mock_config is None,
        a.batch_config is None,
        a.batch_concurrency == 3,
        !a.batch_sequential,
        a.batch_report@ == "text"@,
        a.vars@.len() == 0,
        !a.help_templates,
{
    let n = cmd.headers.len();
    let mut headers: Vec<String> = Vec::new();
    let mut i: usize = 0;
    while i < n
        invariant
            n == cmd.headers@.len(),
            i <= n,
            headers@.len() == i,
            forall|j: int|
                0 <= j < i ==> (#[trigger] headers@[j])@ == cmd.headers@[j].0@ + ": "@
                    + cmd.headers@[j].1@,
        decreases n - i,
    {
        let mut line = cmd.headers[i].0.clone();
        line.append(": ");
        line.append(cmd.headers[i].1.as_str());
        headers.push(line);
        i = i + 1;
    }
    Args {
        url: Some(cmd.url.clone()),
        connections: test.connections,
        duration: test.duration.clone(),
        threads: test.threads,
        rate: test.rate,
        timeout: test.timeout.clone(),
        parse_curl: None,
        parse_curl_file: None,
        load_strategy: "random".to_owned(),
        method: cmd.method.clone(),
        headers,
        data: match &cmd.body {
            Some(b) => Some(b.clone()),
            None => None,
        },
        content_type: None,
        verbose: test.verbose,
        latency: false,
        live_ui: false,
        use_nethttp: test.use_nethttp,
        http2: false,
        mock_server: false,
        mock_port: 8080,
        mock_delay: None,
        mock_response: None,
        mock_status: 200,
        mock_config: None,
        batch_config: None,
        batch_concurrency: 3,
        batch_sequential: false,
        batch_report: "text".to_owned(),
        vars: Vec::new(),
        help_templates: false,
    }
}

} // verus!
