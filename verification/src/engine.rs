//! The worker-pool arithmetic and per-request decisions of the benchmark
//! engine: thread and connection sizing, template selection by policy,
//! rate pacing, and the composition of one outcome record.
//!
//! The engine's event loops (sockets, sleeps, channels) live outside the
//! library; they call these functions for every decision they take.

use vstd::arithmetic::div_mod::{
    lemma_fundamental_div_mod, lemma_fundamental_div_mod_converse_div,
    lemma_fundamental_div_mod_converse_mod, lemma_mod_bound,
};
use vstd::prelude::*;

use crate::cli::Args;
use crate::curl::{headers_view, spec_parse_header_into, CurlCommand};
use crate::stats::RequestResult;
use crate::template::rand_index;
use crate::text::str_eq;

verus! {

/// Relies on `num_cpus::get_physical`: the number of physical cores, which
/// the crate documents as at least 1.
#[verifier::external_body]
pub fn physical_cpus() -> (r: usize)
    ensures
        r >= 1,
{
    num_cpus::get_physical()
}

/// Worker threads actually spawned: the physical cores when the request is
/// 0, else the request clamped to twice the cores.
pub open spec fn spec_actual_threads(requested: int, cores: int) -> int {
    if requested == 0 {
        cores
    } else if requested <= 2 * cores {
        requested
    } else {
        2 * cores
    }
}

pub fn actual_threads(requested: usize, cores: usize) -> (r: usize)
    requires
        cores >= 1,
    ensures
        r == spec_actual_threads(requested as int, cores as int),
        r >= 1,
{
    if requested == 0 {
        cores
    } else {
        match cores.checked_mul(2) {
            Some(double) => {
                if requested <= double {
                    requested
                } else {
                    double
                }
            },
            None => requested,
        }
    }
}

/// An even share of `total` over `parts`, never below one.
pub open spec fn spec_share(total: int, parts: int) -> int {
    if total / parts < 1 {
        1
    } else {
        total / parts
    }
}

/// Logical connections each worker thread hosts.
pub fn connections_per_thread(connections: usize, threads: usize) -> (r: usize)
    requires
        threads >= 1,
    ensures
        r == spec_share(connections as int, threads as int),
        r >= 1,
{
    let share = connections / threads;
    if share < 1 {
        1
    } else {
        share
    }
}

/// Clients in the connection pool: the thread count capped at 20.
pub fn pool_size(threads: usize) -> (r: usize)
    requires
        threads >= 1,
    ensures
        r == if threads <= 20 {
            threads as int
        } else {
            20
        },
        1 <= r <= 20,
{
    if threads <= 20 {
        threads
    } else {
        20
    }
}

/// Connections each pooled client carries.
pub fn connections_per_client(connections: usize, pool: usize) -> (r: usize)
    requires
        pool >= 1,
    ensures
        r == spec_share(connections as int, pool as int),
        r >= 1,
{
    connections_per_thread(connections, pool)
}

/// The pooled client a worker draws: round-robin by the pool's counter.
pub fn pool_index(counter: usize, len: usize) -> (r: usize)
    requires
        len >= 1,
    ensures
        r == counter as int % len as int,
{
    counter % len
}

/// The work-selection policy; anything but `round-robin` is the random
/// default.
#[derive(Clone, Copy, Debug, PartialEq, Eq, Structural)]
pub enum LoadStrategy {
    Random,
    RoundRobin,
}

pub open spec fn spec_strategy(s: Seq<char>) -> LoadStrategy {
    if s == "round-robin"@ {
        LoadStrategy::RoundRobin
    } else {
        LoadStrategy::Random
    }
}

pub fn parse_load_strategy(s: &str) -> (r: LoadStrategy)
    ensures
        r == spec_strategy(s@),
{
    if str_eq(s, "round-robin") {
        LoadStrategy::RoundRobin
    } else {
        LoadStrategy::Random
    }
}

/// The template a task uses for its next request: under round-robin the
/// request count modulo the template count, else a uniform random pick.
pub fn select_template_index(strategy: LoadStrategy, request_count: u64, n: usize) -> (r: usize)
    requires
        n >= 1,
    ensures
        r < n,
        strategy is RoundRobin ==> r == request_count as int % n as int,
{
    match strategy {
        LoadStrategy::RoundRobin => {
            proof {
                lemma_mod_bound(request_count as int, n as int);
            }
            (request_count % (n as u64)) as usize
        },
        LoadStrategy::Random => rand_index(n),
    }
}

/// The pause a task takes between requests: one second split by the
/// per-task rate cap, in microseconds; no pause when the rate is 0.
pub fn pace_delay_micros(rate: u32) -> (r: u64)
    ensures
        rate > 0 ==> r == 1_000_000int / rate as int,
        rate == 0 ==> r == 0,
{
    if rate > 0 {
        1_000_000u64 / (rate as u64)
    } else {
        0
    }
}

// ---- round-robin balance ----

/// How often round-robin picks template `i` over the first `total`
/// requests (request counts 0 to `total - 1`).
pub open spec fn rr_picks(total: int, n: int, i: int) -> int
    decreases total,
{
    if total <= 0 {
        0
    } else {
        rr_picks(total - 1, n, i) + if (total - 1) % n == i {
            1int
        } else {
            0int
        }
    }
}

/// Round-robin selection is balanced: over `total` requests, each of `n`
/// templates is picked `total / n` times, plus once more for exactly the
/// first `total % n` of them — so any two templates differ by at most one
/// pick.
pub proof fn lemma_round_robin_balanced(total: int, n: int, i: int)
    requires
        n >= 1,
        0 <= i < n,
        total >= 0,
    ensures
        rr_picks(total, n, i) == total / n + if i < total % n {
            1int
        } else {
            0int
        },
    decreases total,
{
    if total == 0 {
        assert(0int / n == 0 && 0int % n == 0) by {
            lemma_fundamental_div_mod_converse_div(0, n, 0, 0);
            lemma_fundamental_div_mod_converse_mod(0, n, 0, 0);
        }
    } else {
        lemma_round_robin_balanced(total - 1, n, i);
        let q = (total - 1) / n;
        let r = (total - 1) % n;
        lemma_fundamental_div_mod(total - 1, n);
        lemma_mod_bound(total - 1, n);
        if r == n - 1 {
            assert(total == (q + 1) * n + 0) by (nonlinear_arith)
                requires
                    total - 1 == n * q + (n - 1),
            {
            }
            lemma_fundamental_div_mod_converse_div(total, n, q + 1, 0);
            lemma_fundamental_div_mod_converse_mod(total, n, q + 1, 0);
        } else {
            assert(total == q * n + (r + 1)) by (nonlinear_arith)
                requires
                    total - 1 == n * q + r,
            {
            }
            lemma_fundamental_div_mod_converse_div(total, n, q, r + 1);
            lemma_fundamental_div_mod_converse_mod(total, n, q, r + 1);
        }
    }
}

// ---- outcome composition ----

/// The outcome record of one attempt: status and bytes from a response,
/// the error text from a failure, and the endpoint tag only when more than
/// one template is active.
pub fn compose_outcome(
    result: Result<(u16, usize), String>,
    duration_micros: u64,
    endpoint_url: &String,
    n_templates: usize,
) -> (r: RequestResult)
    ensures
        r.duration_micros == duration_micros,
        (result matches Ok(sb) ==> r.status_code == Some(sb.0) && r.bytes_read == sb.1 && r.error
            is None),
        (result matches Err(e) ==> r.status_code is None && r.bytes_read == 0 && r.error == Some(
            e,
        )),
        (n_templates > 1 ==> (r.endpoint matches Some(u) && u@ == endpoint_url@)),
        (n_templates <= 1 ==> r.endpoint is None),
{
    let endpoint: Option<String> = if n_templates > 1 {
        Some(endpoint_url.clone())
    } else {
        None
    };
    match result {
        Ok((status, bytes)) => RequestResult {
            duration_micros,
            status_code: Some(status),
            bytes_read: bytes,
            error: None,
            endpoint,
        },
        Err(msg) => RequestResult {
            duration_micros,
            status_code: None,
            bytes_read: 0,
            error: Some(msg),
            endpoint,
        },
    }
}

// ---- the single-URL template ----

/// The headers the command line asks for, folded over the option list.
pub open spec fn spec_args_headers(hs: Seq<String>, i: int) -> Seq<(Seq<char>, Seq<char>)>
    decreases i,
{
    if i <= 0 {
        Seq::empty()
    } else {
        spec_parse_header_into(spec_args_headers(hs, i - 1), hs[i - 1]@)
    }
}

/// The request template of the plain single-URL mode: the given URL, the
/// `-X` method verbatim, the `-H` headers in order, a `Content-Type`
/// header when asked for, and the `--data` body.
pub fn create_command_from_args(args: &Args, url: String) -> (c: CurlCommand)
    ensures
        c.url@ == url@,
        c.method@ == args.method@,
        ({
            let base = spec_args_headers(args.headers@, args.headers@.len() as int);
            headers_view(c.headers@) == match args.content_type {
                Some(ct) => crate::curl::spec_header_insert(base, "Content-Type"@, ct@),
                None => base,
            }
        }),
        (args.data matches Some(d) ==> c.body matches Some(b) && b@ == d@),
        (args.data is None ==> c.body is None),
{
    let ghost url_view = url@;
    let mut cmd = CurlCommand::new(url);
    cmd.method = args.method.clone();
    let n = args.headers.len();
    let mut i: usize = 0;
    proof {
        assert(headers_view(cmd.headers@) =~= Seq::<(Seq<char>, Seq<char>)>::empty());
    }
    while i < n
        invariant
            n == args.headers@.len(),
            i <= n,
            cmd.url@ == url_view,
            cmd.method@ == args.method@,
            cmd.body is None,
            headers_view(cmd.headers@) == spec_args_headers(args.headers@, i as int),
        decreases n - i,
    {
        crate::curl::parse_header(args.headers[i].as_str(), &mut cmd.headers);
        i = i + 1;
    }
    match &args.content_type {
        Some(ct) => {
            crate::curl::header_insert(&mut cmd.headers, "Content-Type".to_owned(), ct.clone());
        },
        None => {},
    }
    cmd.body = match &args.data {
        Some(d) => Some(d.clone()),
        None => None,
    };
    cmd
}

} // verus!
