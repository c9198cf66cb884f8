//! The mock HTTP server's routing table: route configuration records, their
//! normalization into runnable routes, and first-match route selection.
//! Listening, delaying and echoing happen outside the library.

use vstd::prelude::*;

use crate::cli::{spec_parse_duration_ms, Args};
use crate::http::{normalize_method, spec_method_of, HttpMethod};
use crate::text::str_eq;

verus! {

/// The mock server's configuration record.
pub struct MockConfig {
    /// Port to listen on; the command-line port when absent.
    pub port: Option<u16>,
    /// The configured routes; an echoing default route when absent.
    pub routes: Option<Vec<RouteConfig>>,
}

/// One configured route.
pub struct RouteConfig {
    /// Request path to answer, `*` for any.
    pub path: String,
    /// Request method to answer.
    pub method: String,
    /// Status code of the answer.
    pub status_code: u16,
    /// Fixed response body.
    pub response: Option<String>,
    /// Response delay, in the suffixed duration grammar.
    pub delay: Option<String>,
    /// Whether to echo the request instead of answering the fixed body.
    pub echo: bool,
}

/// The method a route answers when none is configured.
pub fn default_method() -> (r: String)
    ensures
        r@ == "GET"@,
{
    "GET".to_owned()
}

/// The status a route answers when none is configured.
pub fn default_status_code() -> (r: u16)
    ensures
        r == 200,
{
    200
}

/// A route ready to serve: method and status normalized, delay parsed to
/// milliseconds.
pub struct Route {
    pub path: String,
    pub method: HttpMethod,
    pub status_code: u16,
    pub response: Option<String>,
    pub delay_ms: Option<u64>,
    pub echo: bool,
}

/// The normalized status of a configured one: kept when it is a valid HTTP
/// code, 200 otherwise.
pub open spec fn spec_route_status(sc: u16) -> u16 {
    if 100 <= sc <= 999 {
        sc
    } else {
        200
    }
}

/// The parsed delay of a configured one: the duration grammar applied to
/// the text, absent when it does not parse.
pub open spec fn spec_route_delay(d: Option<String>) -> Option<u64> {
    match d {
        Some(ds) => spec_parse_duration_ms(ds@),
        None => None,
    }
}

/// How a runnable route relates to its configuration.
pub open spec fn route_of_config(rt: Route, rc: RouteConfig) -> bool {
    &&& rt.path@ == rc.path@
    &&& rt.method == spec_method_of(rc.method@)
    &&& rt.status_code == spec_route_status(rc.status_code)
    &&& match (rt.response, rc.response) {
        (Some(a), Some(b)) => a@ == b@,
        (None, None) => true,
        _ => false,
    }
    &&& rt.delay_ms == spec_route_delay(rc.delay)
    &&& rt.echo == rc.echo
}

/// Normalizes every configured route: unknown methods become GET, invalid
/// status codes 200, unparsable delays are dropped.
pub fn parse_routes(config_routes: Option<Vec<RouteConfig>>) -> (r: Vec<Route>)
    ensures
        ({
            match config_routes {
                Some(rcs) => r@.len() == rcs@.len() && (forall|i: int|
                    0 <= i < rcs@.len() ==> route_of_config(#[trigger] r@[i], rcs@[i])),
                None => r@.len() == 0,
            }
        }),
{
    let mut routes: Vec<Route> = Vec::new();
    match config_routes {
        Some(rcs) => {
            let n = rcs.len();
            let mut i: usize = 0;
            while i < n
                invariant
                    n == rcs@.len(),
                    i <= n,
                    routes@.len() == i,
                    forall|j: int|
                        0 <= j < i ==> route_of_config(#[trigger] routes@[j], rcs@[j]),
                decreases n - i,
            {
                let rc = &rcs[i];
                let method = normalize_method(rc.method.as_str());
                let status_code: u16 = if 100 <= rc.status_code && rc.status_code <= 999 {
                    rc.status_code
                } else {
                    200
                };
                let delay_ms: Option<u64> = match &rc.delay {
                    Some(d) => match crate::cli::parse_duration_string(d.as_str()) {
                        Ok(ms) => Some(ms),
                        Err(_) => None,
                    },
                    None => None,
                };
                let response: Option<String> = match &rc.response {
                    Some(b) => Some(b.clone()),
                    None => None,
                };
                routes.push(
                    Route {
                        path: rc.path.clone(),
                        method,
                        status_code,
                        response,
                        delay_ms,
                        echo: rc.echo,
                    },
                );
                i = i + 1;
            }
            routes
        },
        None => routes,
    }
}

/// The routing table.
pub struct MockServerState {
    pub routes: Vec<Route>,
}

/// Builds the routing table: from the configuration file's routes when one
/// was read, else a single catch-all route when the command line customizes
/// the answer, else empty (everything echoes).
pub fn build_server_state(args: &Args, config: Option<MockConfig>) -> (r: MockServerState)
    ensures
        ({
            match config {
                Some(c) => match c.routes {
                    Some(rcs) => r.routes@.len() == rcs@.len() && (forall|i: int|
                        0 <= i < rcs@.len() ==> route_of_config(#[trigger] r.routes@[i], rcs@[i])),
                    None => r.routes@.len() == 0,
                },
                None => {
                    if args.mock_response is Some || args.mock_delay is Some || args.mock_status
                        != 200 {
                        &&& r.routes@.len() == 1
                        &&& r.routes@[0].path@ == "*"@
                        &&& r.routes@[0].method == HttpMethod::Get
                        &&& r.routes@[0].status_code == spec_route_status(args.mock_status)
                        &&& r.routes@[0].delay_ms == spec_route_delay(args.mock_delay)
                        &&& r.routes@[0].echo == false
                    } else {
                        r.routes@.len() == 0
                    }
                },
            }
        }),
{
    match config {
        Some(c) => MockServerState { routes: parse_routes(c.routes) },
        None => {
            let mut routes: Vec<Route> = Vec::new();
            if args.mock_response.is_some() || args.mock_delay.is_some() || args.mock_status != 200
             {
                let delay_ms: Option<u64> = match &args.mock_delay {
                    Some(d) => match crate::cli::parse_duration_string(d.as_str()) {
                        Ok(ms) => Some(ms),
                        Err(_) => None,
                    },
                    None => None,
                };
                let status_code: u16 = if 100 <= args.mock_status && args.mock_status <= 999 {
                    args.mock_status
                } else {
                    200
                };
                let response: Option<String> = match &args.mock_response {
                    Some(b) => Some(b.clone()),
                    None => None,
                };
                routes.push(
                    Route {
                        path: "*".to_owned(),
                        method: HttpMethod::Get,
                        status_code,
                        response,
                        delay_ms,
                        echo: false,
                    },
                );
            }
            MockServerState { routes }
        },
    }
}

/// Whether a route answers the request.
pub open spec fn route_matches(rt: Route, method: HttpMethod, path: Seq<char>) -> bool {
    rt.method == method && (rt.path@ == "*"@ || rt.path@ == path)
}

/// The first route answering the request, when one exists.
pub fn match_route(routes: &Vec<Route>, method: HttpMethod, path: &str) -> (r: Option<usize>)
    ensures
        (r matches Some(i) ==> i < routes@.len() && route_matches(routes@[i as int], method, path@)
            && (forall|j: int| 0 <= j < i ==> !route_matches(#[trigger] routes@[j], method, path@))),
        (r is None ==> forall|j: int|
            0 <= j < routes@.len() ==> !route_matches(#[trigger] routes@[j], method, path@)),
{
    let n = routes.len();
    let mut i: usize = 0;
    while i < n
        invariant
            n == routes@.len(),
            i <= n,
            forall|j: int| 0 <= j < i ==> !route_matches(#[trigger] routes@[j], method, path@),
        decreases n - i,
    {
        let same_method = routes[i].method == method;
        let hit = same_method && (str_eq(routes[i].path.as_str(), "*") || str_eq(
            routes[i].path.as_str(),
            path,
        ));
        if hit {
            return Some(i);
        }
        i = i + 1;
    }
    None
}

} // verus!
