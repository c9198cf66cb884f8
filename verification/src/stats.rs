//! The statistics pipeline: per-request outcomes folded into counters, a
//! latency histogram, per-status and per-error tallies, and per-endpoint
//! sub-aggregates, with immutable snapshots for readers.
//!
//! Counter maps are association vectors with unique keys; their contracts
//! speak of `count_val_*`, the total count a key holds (0 when absent).

use vstd::prelude::*;

use crate::histogram::{clip, Histogram};

verus! {

/// The record of one attempted request.
#[derive(Clone, Debug)]
pub struct RequestResult {
    /// Wall-clock duration of the attempt, in microseconds.
    pub duration_micros: u64,
    /// HTTP status, when a response line was read.
    pub status_code: Option<u16>,
    /// Response body bytes drained; 0 on failure.
    pub bytes_read: usize,
    /// Error description, when the attempt failed.
    pub error: Option<String>,
    /// The template URL, set only when more than one template is active.
    pub endpoint: Option<String>,
}

// ---- projections of a run of outcomes ----

/// Outcomes that carry no error.
pub open spec fn count_ok(rs: Seq<RequestResult>) -> int
    decreases rs.len(),
{
    if rs.len() == 0 {
        0
    } else {
        count_ok(rs.drop_last()) + if rs.last().error is None {
            1int
        } else {
            0int
        }
    }
}

/// Outcomes that carry an error.
pub open spec fn count_failed(rs: Seq<RequestResult>) -> int
    decreases rs.len(),
{
    if rs.len() == 0 {
        0
    } else {
        count_failed(rs.drop_last()) + if rs.last().error is Some {
            1int
        } else {
            0int
        }
    }
}

/// Outcomes that carry any status code.
pub open spec fn count_with_status(rs: Seq<RequestResult>) -> int
    decreases rs.len(),
{
    if rs.len() == 0 {
        0
    } else {
        count_with_status(rs.drop_last()) + if rs.last().status_code is Some {
            1int
        } else {
            0int
        }
    }
}

/// Outcomes that carry the status code `code`.
pub open spec fn count_status(rs: Seq<RequestResult>, code: u16) -> int
    decreases rs.len(),
{
    if rs.len() == 0 {
        0
    } else {
        count_status(rs.drop_last(), code) + if rs.last().status_code == Some(code) {
            1int
        } else {
            0int
        }
    }
}

/// Outcomes whose error description reads `msg`.
pub open spec fn count_error_msg(rs: Seq<RequestResult>, msg: Seq<char>) -> int
    decreases rs.len(),
{
    if rs.len() == 0 {
        0
    } else {
        count_error_msg(rs.drop_last(), msg) + if rs.last().error matches Some(m) && m@ == msg {
            1int
        } else {
            0int
        }
    }
}

/// Total bytes read across the outcomes.
pub open spec fn sum_bytes(rs: Seq<RequestResult>) -> int
    decreases rs.len(),
{
    if rs.len() == 0 {
        0
    } else {
        sum_bytes(rs.drop_last()) + rs.last().bytes_read
    }
}

/// The outcomes tagged with endpoint `url`, in order.
pub open spec fn filter_endpoint(rs: Seq<RequestResult>, url: Seq<char>) -> Seq<RequestResult>
    decreases rs.len(),
{
    if rs.len() == 0 {
        Seq::empty()
    } else {
        let p = filter_endpoint(rs.drop_last(), url);
        if rs.last().endpoint matches Some(u) && u@ == url {
            p.push(rs.last())
        } else {
            p
        }
    }
}

/// A tagged subset never outgrows the run it came from.
pub proof fn lemma_filter_endpoint_len(rs: Seq<RequestResult>, url: Seq<char>)
    ensures
        filter_endpoint(rs, url).len() <= rs.len(),
    decreases rs.len(),
{
    if rs.len() > 0 {
        lemma_filter_endpoint_len(rs.drop_last(), url);
    }
}

// ---- counter maps keyed by status code ----

pub open spec fn unique_keys_u16(m: Seq<(u16, u64)>) -> bool {
    forall|i: int, j: int| 0 <= i < j < m.len() ==> (#[trigger] m[i]).0 != (#[trigger] m[j]).0
}

/// The count the map holds for `k`: the sum of the values of entries keyed
/// `k`, so 0 when `k` is absent.
pub open spec fn count_val_u16(m: Seq<(u16, u64)>, k: u16) -> int
    decreases m.len(),
{
    if m.len() == 0 {
        0
    } else {
        count_val_u16(m.drop_last(), k) + if m.last().0 == k {
            m.last().1 as int
        } else {
            0int
        }
    }
}

/// The sum of all counts the map holds.
pub open spec fn sum_vals_u16(m: Seq<(u16, u64)>) -> int
    decreases m.len(),
{
    if m.len() == 0 {
        0
    } else {
        sum_vals_u16(m.drop_last()) + m.last().1 as int
    }
}

/// With unique keys, the count for the key of entry `i` is that entry's
/// value.
proof fn lemma_count_val_u16_entry(m: Seq<(u16, u64)>, i: int)
    requires
        unique_keys_u16(m),
        0 <= i < m.len(),
    ensures
        count_val_u16(m, m[i].0) == m[i].1 as int,
    decreases m.len(),
{
    if i == m.len() - 1 {
        lemma_count_val_u16_missing(m.drop_last(), m[i].0);
    } else {
        let t = m.drop_last();
        assert(unique_keys_u16(t)) by {
            assert(forall|a: int, b: int|
                0 <= a < b < t.len() ==> t[a] == #[trigger] m[a] && t[b] == #[trigger] m[b]);
        }
        lemma_count_val_u16_entry(t, i);
        assert(m.last().0 != m[i].0);
    }
}

/// A key no entry carries counts 0.
proof fn lemma_count_val_u16_missing(m: Seq<(u16, u64)>, k: u16)
    requires
        forall|j: int| 0 <= j < m.len() ==> (#[trigger] m[j]).0 != k,
    ensures
        count_val_u16(m, k) == 0,
    decreases m.len(),
{
    if m.len() > 0 {
        let t = m.drop_last();
        assert(forall|j: int| 0 <= j < t.len() ==> t[j] == #[trigger] m[j]);
        lemma_count_val_u16_missing(t, k);
    }
}

/// Raising the value of entry `i` raises its key's count and the total by
/// the same amount, and leaves other keys' counts alone.
proof fn lemma_count_val_u16_update(m: Seq<(u16, u64)>, i: int, v2: u64)
    requires
        0 <= i < m.len(),
    ensures
        forall|k2: u16|
            count_val_u16(m.update(i, (m[i].0, v2)), k2) == count_val_u16(m, k2) + if m[i].0 == k2 {
                v2 - m[i].1
            } else {
                0int
            },
        sum_vals_u16(m.update(i, (m[i].0, v2))) == sum_vals_u16(m) + v2 - m[i].1,
    decreases m.len(),
{
    let u = m.update(i, (m[i].0, v2));
    if i == m.len() - 1 {
        assert(u.drop_last() =~= m.drop_last());
        assert(u.last() == (m[i].0, v2));
    } else {
        lemma_count_val_u16_update(m.drop_last(), i, v2);
        assert(u.drop_last() =~= m.drop_last().update(i, (m[i].0, v2)));
        assert(u.last() == m.last());
    }
    assert forall|k2: u16|
        count_val_u16(u, k2) == count_val_u16(m, k2) + (if m[i].0 == k2 {
            v2 - m[i].1
        } else {
            0int
        }) by {
        assert(count_val_u16(u, k2) == count_val_u16(u.drop_last(), k2) + if u.last().0 == k2 {
            u.last().1 as int
        } else {
            0int
        });
        assert(count_val_u16(m, k2) == count_val_u16(m.drop_last(), k2) + if m.last().0 == k2 {
            m.last().1 as int
        } else {
            0int
        });
    }
}

/// Records one occurrence of `k`: its count and the sum of counts each grow
/// by one, every other count stays.
pub fn bump_u16(m: &mut Vec<(u16, u64)>, k: u16)
    requires
        unique_keys_u16(old(m)@),
        count_val_u16(old(m)@, k) < u64::MAX,
    ensures
        unique_keys_u16(final(m)@),
        forall|k2: u16|
            count_val_u16(final(m)@, k2) == count_val_u16(old(m)@, k2) + if k2 == k {
                1int
            } else {
                0int
            },
        sum_vals_u16(final(m)@) == sum_vals_u16(old(m)@) + 1,
{
    let n = m.len();
    let mut i: usize = 0;
    while i < n
        invariant
            n == m@.len(),
            i <= n,
            m@ == old(m)@,
            unique_keys_u16(m@),
            count_val_u16(m@, k) < u64::MAX,
            forall|j: int| 0 <= j < i ==> (#[trigger] m@[j]).0 != k,
        decreases n - i,
    {
        if m[i].0 == k {
            let v = m[i].1;
            proof {
                lemma_count_val_u16_entry(m@, i as int);
                lemma_count_val_u16_update(m@, i as int, (v + 1) as u64);
            }
            m.set(i, (k, v + 1));
            proof {
                assert(unique_keys_u16(m@)) by {
                    assert(forall|a: int|
                        0 <= a < m@.len() ==> (#[trigger] m@[a]).0 == old(m)@[a].0);
                }
            }
            return ;
        }
        i = i + 1;
    }
    proof {
        lemma_count_val_u16_missing(m@, k);
    }
    m.push((k, 1));
    proof {
        assert(m@.drop_last() =~= old(m)@);
        assert(forall|k2: u16|
            count_val_u16(m@, k2) == count_val_u16(old(m)@, k2) + if k2 == k {
                1int
            } else {
                0int
            });
    }
}

// ---- counter maps keyed by a string ----

pub open spec fn unique_keys_str(m: Seq<(String, u64)>) -> bool {
    forall|i: int, j: int| 0 <= i < j < m.len() ==> (#[trigger] m[i]).0@ != (#[trigger] m[j]).0@
}

/// The count the map holds for the key reading `k`; 0 when absent.
pub open spec fn count_val_str(m: Seq<(String, u64)>, k: Seq<char>) -> int
    decreases m.len(),
{
    if m.len() == 0 {
        0
    } else {
        count_val_str(m.drop_last(), k) + if m.last().0@ == k {
            m.last().1 as int
        } else {
            0int
        }
    }
}

/// The sum of all counts the map holds.
pub open spec fn sum_vals_str(m: Seq<(String, u64)>) -> int
    decreases m.len(),
{
    if m.len() == 0 {
        0
    } else {
        sum_vals_str(m.drop_last()) + m.last().1 as int
    }
}

proof fn lemma_count_val_str_entry(m: Seq<(String, u64)>, i: int)
    requires
        unique_keys_str(m),
        0 <= i < m.len(),
    ensures
        count_val_str(m, m[i].0@) == m[i].1 as int,
    decreases m.len(),
{
    if i == m.len() - 1 {
        lemma_count_val_str_missing(m.drop_last(), m[i].0@);
    } else {
        let t = m.drop_last();
        assert(unique_keys_str(t)) by {
            assert(forall|a: int, b: int|
                0 <= a < b < t.len() ==> t[a] == #[trigger] m[a] && t[b] == #[trigger] m[b]);
        }
        lemma_count_val_str_entry(t, i);
        assert(m.last().0@ != m[i].0@);
    }
}

proof fn lemma_count_val_str_missing(m: Seq<(String, u64)>, k: Seq<char>)
    requires
        forall|j: int| 0 <= j < m.len() ==> (#[trigger] m[j]).0@ != k,
    ensures
        count_val_str(m, k) == 0,
    decreases m.len(),
{
    if m.len() > 0 {
        let t = m.drop_last();
        assert(forall|j: int| 0 <= j < t.len() ==> t[j] == #[trigger] m[j]);
        lemma_count_val_str_missing(t, k);
    }
}

proof fn lemma_count_val_str_update(m: Seq<(String, u64)>, i: int, e2: (String, u64))
    requires
        0 <= i < m.len(),
        e2.0@ == m[i].0@,
    ensures
        forall|k2: Seq<char>|
            count_val_str(m.update(i, e2), k2) == count_val_str(m, k2) + if m[i].0@ == k2 {
                e2.1 - m[i].1
            } else {
                0int
            },
        sum_vals_str(m.update(i, e2)) == sum_vals_str(m) + e2.1 - m[i].1,
    decreases m.len(),
{
    let u = m.update(i, e2);
    if i == m.len() - 1 {
        assert(u.drop_last() =~= m.drop_last());
        assert(u.last() == e2);
    } else {
        lemma_count_val_str_update(m.drop_last(), i, e2);
        assert(u.drop_last() =~= m.drop_last().update(i, e2));
        assert(u.last() == m.last());
    }
    assert forall|k2: Seq<char>|
        count_val_str(u, k2) == count_val_str(m, k2) + (if m[i].0@ == k2 {
            e2.1 - m[i].1
        } else {
            0int
        }) by {
        assert(count_val_str(u, k2) == count_val_str(u.drop_last(), k2) + if u.last().0@ == k2 {
            u.last().1 as int
        } else {
            0int
        });
        assert(count_val_str(m, k2) == count_val_str(m.drop_last(), k2) + if m.last().0@ == k2 {
            m.last().1 as int
        } else {
            0int
        });
    }
}

/// Records one occurrence of the key reading like `k`.
pub fn bump_str(m: &mut Vec<(String, u64)>, k: &str)
    requires
        unique_keys_str(old(m)@),
        count_val_str(old(m)@, k@) < u64::MAX,
    ensures
        unique_keys_str(final(m)@),
        forall|k2: Seq<char>|
            count_val_str(final(m)@, k2) == count_val_str(old(m)@, k2) + if k2 == k@ {
                1int
            } else {
                0int
            },
        sum_vals_str(final(m)@) == sum_vals_str(old(m)@) + 1,
{
    let n = m.len();
    let mut i: usize = 0;
    while i < n
        invariant
            n == m@.len(),
            i <= n,
            m@ == old(m)@,
            unique_keys_str(m@),
            count_val_str(m@, k@) < u64::MAX,
            forall|j: int| 0 <= j < i ==> (#[trigger] m@[j]).0@ != k@,
        decreases n - i,
    {
        if crate::text::str_eq(m[i].0.as_str(), k) {
            let v = m[i].1;
            proof {
                lemma_count_val_str_entry(m@, i as int);
            }
            let entry = (m[i].0.clone(), v + 1);
            proof {
                lemma_count_val_str_update(m@, i as int, entry);
            }
            m.set(i, entry);
            proof {
                assert(unique_keys_str(m@)) by {
                    assert(forall|a: int|
                        0 <= a < m@.len() ==> (#[trigger] m@[a]).0@ == old(m)@[a].0@);
                }
            }
            return ;
        }
        i = i + 1;
    }
    proof {
        lemma_count_val_str_missing(m@, k@);
    }
    m.push((k.to_owned(), 1));
    proof {
        assert(m@.drop_last() =~= old(m)@);
        assert(forall|k2: Seq<char>|
            count_val_str(m@, k2) == count_val_str(old(m)@, k2) + if k2 == k@ {
                1int
            } else {
                0int
            });
    }
}

// ---- bounds of the projections ----

/// Every projection of a run is bounded by its length, and successes and
/// failures split it.
pub proof fn lemma_projection_bounds(rs: Seq<RequestResult>)
    ensures
        0 <= count_ok(rs) <= rs.len(),
        0 <= count_failed(rs) <= rs.len(),
        0 <= count_with_status(rs) <= rs.len(),
        0 <= sum_bytes(rs),
        count_ok(rs) + count_failed(rs) == rs.len(),
    decreases rs.len(),
{
    if rs.len() > 0 {
        lemma_projection_bounds(rs.drop_last());
    }
}

pub proof fn lemma_count_status_bounds(rs: Seq<RequestResult>, code: u16)
    ensures
        0 <= count_status(rs, code) <= rs.len(),
    decreases rs.len(),
{
    if rs.len() > 0 {
        lemma_count_status_bounds(rs.drop_last(), code);
    }
}

pub proof fn lemma_count_error_msg_bounds(rs: Seq<RequestResult>, msg: Seq<char>)
    ensures
        0 <= count_error_msg(rs, msg) <= rs.len(),
    decreases rs.len(),
{
    if rs.len() > 0 {
        lemma_count_error_msg_bounds(rs.drop_last(), msg);
    }
}

/// A run where every outcome has a status is fully counted by status.
pub proof fn lemma_all_status_counted(rs: Seq<RequestResult>)
    requires
        forall|k: int| 0 <= k < rs.len() ==> (#[trigger] rs[k]).status_code is Some,
    ensures
        count_with_status(rs) == rs.len(),
    decreases rs.len(),
{
    if rs.len() > 0 {
        let t = rs.drop_last();
        assert(forall|k: int| 0 <= k < t.len() ==> t[k] == #[trigger] rs[k]);
        lemma_all_status_counted(t);
    }
}

/// The tagged subset reads no more bytes and fails no more often than the
/// whole run.
pub proof fn lemma_filter_endpoint_bounds(rs: Seq<RequestResult>, url: Seq<char>)
    ensures
        sum_bytes(filter_endpoint(rs, url)) <= sum_bytes(rs),
        count_failed(filter_endpoint(rs, url)) <= count_failed(rs),
    decreases rs.len(),
{
    lemma_projection_bounds(filter_endpoint(rs, url));
    if rs.len() > 0 {
        lemma_filter_endpoint_bounds(rs.drop_last(), url);
        let p = filter_endpoint(rs.drop_last(), url);
        if rs.last().endpoint matches Some(u) && u@ == url {
            assert(p.push(rs.last()).drop_last() =~= p);
        }
    }
}

// ---- per-endpoint sub-aggregate ----

/// The sub-aggregate kept for one endpoint.
pub struct EndpointStats {
    pub requests: u64,
    pub errors: u64,
    pub total_bytes: u64,
    pub latency_histogram: Histogram,
    pub status_codes: Vec<(u16, u64)>,
    /// The outcomes this sub-aggregate has folded in.
    pub recorded: Ghost<Seq<RequestResult>>,
}

impl EndpointStats {
    /// Every counter agrees with the recorded outcomes.
    pub open spec fn wf(&self) -> bool {
        &&& self.requests as int == self.recorded@.len()
        &&& self.errors as int == count_failed(self.recorded@)
        &&& self.total_bytes as int == sum_bytes(self.recorded@)
        &&& self.latency_histogram.wf()
        &&& self.latency_histogram.values@.len() == self.recorded@.len()
        &&& forall|k: int|
            0 <= k < self.recorded@.len() ==> #[trigger] self.latency_histogram.values@[k] == clip(
                self.recorded@[k].duration_micros,
            )
        &&& unique_keys_u16(self.status_codes@)
        &&& forall|code: u16|
            #[trigger] count_val_u16(self.status_codes@, code) == count_status(
                self.recorded@,
                code,
            )
        &&& sum_vals_u16(self.status_codes@) == count_with_status(self.recorded@)
    }

    /// An empty sub-aggregate.
    pub fn new() -> (s: EndpointStats)
        ensures
            s.wf(),
            s.recorded@ == Seq::<RequestResult>::empty(),
            s.status_codes@.len() == 0,
    {
        let s = EndpointStats {
            requests: 0,
            errors: 0,
            total_bytes: 0,
            latency_histogram: Histogram::new(),
            status_codes: Vec::new(),
            recorded: Ghost(Seq::empty()),
        };
        proof {
            assert(forall|code: u16| count_val_u16(s.status_codes@, code) == 0);
        }
        s
    }

    /// Folds one outcome in: the request count grows by one, the error
    /// count when it failed, the byte total by its bytes, its status's
    /// count by one, and its duration enters the histogram.
    pub fn record(&mut self, result: &RequestResult)
        requires
            old(self).wf(),
            old(self).requests < u64::MAX,
            old(self).total_bytes + result.bytes_read <= u64::MAX,
        ensures
            final(self).wf(),
            final(self).recorded@ == old(self).recorded@.push(*result),
    {
        let ghost rs = self.recorded@;
        let ghost nrs = rs.push(*result);
        proof {
            lemma_projection_bounds(rs);
            assert(nrs.drop_last() =~= rs);
        }
        self.requests = self.requests + 1;
        if let Some(status) = result.status_code {
            proof {
                lemma_count_status_bounds(rs, status);
            }
            bump_u16(&mut self.status_codes, status);
        }
        if result.error.is_some() {
            self.errors = self.errors + 1;
        }
        self.total_bytes = self.total_bytes + (result.bytes_read as u64);
        self.latency_histogram.record(result.duration_micros);
        proof {
            self.recorded@ = nrs;
            assert(forall|k: int|
                0 <= k < rs.len() ==> #[trigger] nrs[k] == rs[k] && #[trigger] self
                    .latency_histogram
                    .values@[k] == old(self).latency_histogram.values@[k]);
        }
    }
}

// ---- the collector's aggregate ----

pub open spec fn unique_keys_ep(m: Seq<(String, EndpointStats)>) -> bool {
    forall|i: int, j: int| 0 <= i < j < m.len() ==> (#[trigger] m[i]).0@ != (#[trigger] m[j]).0@
}

/// Whether some entry of the map is keyed by a string reading `url`.
pub open spec fn has_ep_key(m: Seq<(String, EndpointStats)>, url: Seq<char>) -> bool {
    exists|i: int| 0 <= i < m.len() && (#[trigger] m[i]).0@ == url
}

/// The endpoint entries agree with the run `rs`: keys are unique, each
/// entry aggregates exactly the outcomes tagged with its key, and every
/// endpoint occurring in the run has an entry.
pub open spec fn eps_wf(m: Seq<(String, EndpointStats)>, rs: Seq<RequestResult>) -> bool {
    &&& unique_keys_ep(m)
    &&& forall|i: int|
        0 <= i < m.len() ==> (#[trigger] m[i]).1.wf() && m[i].1.recorded@ == filter_endpoint(
            rs,
            m[i].0@,
        )
    &&& forall|url: Seq<char>|
        #[trigger] filter_endpoint(rs, url).len() > 0 ==> has_ep_key(m, url)
}

/// Index of the entry whose key reads like `k`, when one exists.
fn find_key_ep(m: &Vec<(String, EndpointStats)>, k: &str) -> (r: Option<usize>)
    ensures
        (r matches Some(i) ==> i < m@.len() && m@[i as int].0@ == k@),
        (r is None ==> forall|j: int| 0 <= j < m@.len() ==> (#[trigger] m@[j]).0@ != k@),
{
    let n = m.len();
    let mut i: usize = 0;
    while i < n
        invariant
            n == m@.len(),
            i <= n,
            forall|j: int| 0 <= j < i ==> (#[trigger] m@[j]).0@ != k@,
        decreases n - i,
    {
        if crate::text::str_eq(m[i].0.as_str(), k) {
            return Some(i);
        }
        i = i + 1;
    }
    None
}

/// Relies on `std::time::SystemTime::now`: microseconds since the Unix
/// epoch, saturated at the `u64` range.  Nothing is assumed of the value.
#[verifier::external_body]
pub fn now_micros() -> u64 {
    match std::time::SystemTime::now().duration_since(std::time::UNIX_EPOCH) {
        Ok(d) => {
            let micros = d.as_micros();
            if micros > u64::MAX as u128 {
                u64::MAX
            } else {
                micros as u64
            }
        },
        Err(_) => 0,
    }
}

/// The collector's aggregate over a whole run.
pub struct Statistics {
    /// When the run started, in microseconds since the epoch.
    pub start_micros: u64,
    /// When `finish` first ran; `None` while the run is live.
    pub end_micros: Option<u64>,
    pub total_requests: u64,
    pub successful_requests: u64,
    pub failed_requests: u64,
    pub total_bytes: u64,
    pub latency_histogram: Histogram,
    /// Status code to number of outcomes carrying it.
    pub status_codes: Vec<(u16, u64)>,
    /// Error description to number of outcomes carrying it.
    pub errors: Vec<(String, u64)>,
    /// Endpoint URL to its sub-aggregate; filled only for tagged outcomes.
    pub endpoint_stats: Vec<(String, EndpointStats)>,
    /// The outcomes folded in so far, in arrival order.
    pub recorded: Ghost<Seq<RequestResult>>,
}

impl Statistics {
    /// Every counter, map and sub-aggregate agrees with the recorded run.
    pub open spec fn wf(&self) -> bool {
        &&& self.total_requests as int == self.recorded@.len()
        &&& self.successful_requests as int == count_ok(self.recorded@)
        &&& self.failed_requests as int == count_failed(self.recorded@)
        &&& self.total_bytes as int == sum_bytes(self.recorded@)
        &&& self.latency_histogram.wf()
        &&& self.latency_histogram.values@.len() == self.recorded@.len()
        &&& forall|k: int|
            0 <= k < self.recorded@.len() ==> #[trigger] self.latency_histogram.values@[k] == clip(
                self.recorded@[k].duration_micros,
            )
        &&& unique_keys_u16(self.status_codes@)
        &&& forall|code: u16|
            #[trigger] count_val_u16(self.status_codes@, code) == count_status(
                self.recorded@,
                code,
            )
        &&& sum_vals_u16(self.status_codes@) == count_with_status(self.recorded@)
        &&& unique_keys_str(self.errors@)
        &&& forall|msg: Seq<char>|
            #[trigger] count_val_str(self.errors@, msg) == count_error_msg(self.recorded@, msg)
        &&& sum_vals_str(self.errors@) == count_failed(self.recorded@)
        &&& eps_wf(self.endpoint_stats@, self.recorded@)
    }

    /// An empty aggregate stamped with the current time.
    pub fn new() -> (s: Statistics)
        ensures
            s.wf(),
            s.recorded@ == Seq::<RequestResult>::empty(),
            s.end_micros is None,
            s.total_requests == 0,
            s.status_codes@.len() == 0,
            s.errors@.len() == 0,
            s.endpoint_stats@.len() == 0,
    {
        let s = Statistics {
            start_micros: now_micros(),
            end_micros: None,
            total_requests: 0,
            successful_requests: 0,
            failed_requests: 0,
            total_bytes: 0,
            latency_histogram: Histogram::new(),
            status_codes: Vec::new(),
            errors: Vec::new(),
            endpoint_stats: Vec::new(),
            recorded: Ghost(Seq::empty()),
        };
        proof {
            assert(forall|code: u16| count_val_u16(s.status_codes@, code) == 0);
            assert(forall|msg: Seq<char>| count_val_str(s.errors@, msg) == 0);
        }
        s
    }

    /// Folds one outcome in: exactly one of the success and failure
    /// counters grows, the maps count its status and error, the histogram
    /// its duration, and its endpoint's sub-aggregate follows suit.
    pub fn record(&mut self, result: RequestResult)
        requires
            old(self).wf(),
            old(self).total_requests < u64::MAX,
            old(self).total_bytes + result.bytes_read <= u64::MAX,
        ensures
            final(self).wf(),
            final(self).recorded@ == old(self).recorded@.push(result),
            final(self).total_requests == old(self).total_requests + 1,
            final(self).end_micros == old(self).end_micros,
            final(self).start_micros == old(self).start_micros,
    {
        let ghost rs = self.recorded@;
        let ghost nrs = rs.push(result);
        proof {
            lemma_projection_bounds(rs);
            assert(nrs.drop_last() =~= rs);
        }
        self.total_requests = self.total_requests + 1;
        match &result.error {
            Some(msg) => {
                self.failed_requests = self.failed_requests + 1;
                proof {
                    lemma_count_error_msg_bounds(rs, msg@);
                }
                bump_str(&mut self.errors, msg.as_str());
            },
            None => {
                self.successful_requests = self.successful_requests + 1;
            },
        }
        if let Some(status) = result.status_code {
            proof {
                lemma_count_status_bounds(rs, status);
            }
            bump_u16(&mut self.status_codes, status);
        }
        self.total_bytes = self.total_bytes + (result.bytes_read as u64);
        self.latency_histogram.record(result.duration_micros);
        if result.endpoint.is_some() {
            record_endpoint(&mut self.endpoint_stats, &result, Ghost(rs));
        }
        proof {
            self.recorded@ = nrs;
            assert(count_ok(nrs) == count_ok(rs) + if result.error is None {
                1int
            } else {
                0int
            });
            assert(count_failed(nrs) == count_failed(rs) + if result.error is Some {
                1int
            } else {
                0int
            });
            assert(count_with_status(nrs) == count_with_status(rs) + if result.status_code
                is Some {
                1int
            } else {
                0int
            });
            assert(sum_bytes(nrs) == sum_bytes(rs) + result.bytes_read);
            assert(forall|k: int| 0 <= k < rs.len() ==> #[trigger] nrs[k] == rs[k]);
            assert forall|code: u16| #[trigger] count_val_u16(self.status_codes@, code)
                == count_status(nrs, code) by {
                assert(count_status(nrs, code) == count_status(rs, code) + if result.status_code
                    == Some(code) {
                    1int
                } else {
                    0int
                });
            }
            assert forall|msg: Seq<char>| #[trigger] count_val_str(self.errors@, msg)
                == count_error_msg(nrs, msg) by {
                assert(count_error_msg(nrs, msg) == count_error_msg(rs, msg) + if result.error
                    matches Some(m) && m@ == msg {
                    1int
                } else {
                    0int
                });
            }
            if result.endpoint is None {
                assert forall|url: Seq<char>| #[trigger] filter_endpoint(nrs, url)
                    == filter_endpoint(rs, url) by {
                    assert(filter_endpoint(nrs, url).len() >= 0);
                }
                assert(eps_wf(self.endpoint_stats@, nrs));
            }
        }
    }
}

/// `s` with its end stamp set to `now` if it had none; otherwise `s`
/// unchanged.
pub open spec fn spec_finish(s: Statistics, now: u64) -> Statistics {
    if s.end_micros is Some {
        s
    } else {
        (Statistics { end_micros: Some(now), ..s })
    }
}

impl Statistics {
    /// Stamps the end of the run, once: a second call changes nothing.
    pub fn finish(&mut self)
        ensures
            exists|n: u64| *final(self) == spec_finish(*old(self), n),
            old(self).end_micros is Some ==> *final(self) == *old(self),
            final(self).end_micros is Some,
            old(self).wf() ==> final(self).wf(),
    {
        if self.end_micros.is_none() {
            let n = now_micros();
            self.end_micros = Some(n);
            proof {
                assert(*self == spec_finish(*old(self), n));
            }
        } else {
            proof {
                let witness: u64 = 0;
                assert(*self == spec_finish(*old(self), witness));
            }
        }
    }

    /// Microseconds from start to end; while the run is live, to now.
    /// Saturates at zero if the clock stepped backwards.
    pub fn duration_micros(&self) -> (r: u64)
        ensures
            self.end_micros matches Some(e) ==> r == if e >= self.start_micros {
                e - self.start_micros
            } else {
                0
            },
    {
        let end = match self.end_micros {
            Some(e) => e,
            None => now_micros(),
        };
        if end >= self.start_micros {
            end - self.start_micros
        } else {
            0
        }
    }

    /// Mean latency over the run, in microseconds.
    pub fn avg_latency(&self) -> (r: u64)
        requires
            self.wf(),
        ensures
            r == self.latency_histogram.spec_mean(),
    {
        self.latency_histogram.mean()
    }

    /// Smallest recorded latency, at bucket precision, in microseconds.
    pub fn min_latency(&self) -> (r: u64)
        requires
            self.wf(),
        ensures
            r == self.latency_histogram.spec_min(),
    {
        self.latency_histogram.min()
    }

    /// Largest recorded latency, at bucket precision, in microseconds.
    pub fn max_latency(&self) -> (r: u64)
        requires
            self.wf(),
        ensures
            r == self.latency_histogram.spec_max(),
    {
        self.latency_histogram.max()
    }

    /// Latency at percentile `p`, in microseconds.
    pub fn percentile(&self, p: u64) -> (r: u64)
        requires
            self.wf(),
            p <= 100,
        ensures
            r == self.latency_histogram.spec_percentile(p as int),
    {
        self.latency_histogram.percentile(p)
    }
}

// ---- the run invariants ----

/// The totals add up: every recorded outcome is counted exactly once, as a
/// success or as a failure.
pub proof fn lemma_totals(s: &Statistics)
    requires
        s.wf(),
    ensures
        s.total_requests == s.successful_requests + s.failed_requests,
        s.total_requests == s.recorded@.len(),
{
    lemma_projection_bounds(s.recorded@);
}

/// When every outcome carries a status code — in particular when every
/// request succeeded with a response — the status counters sum to the
/// request total.
pub proof fn lemma_status_counts_total(s: &Statistics)
    requires
        s.wf(),
        forall|k: int| 0 <= k < s.recorded@.len() ==> (#[trigger] s.recorded@[k]).status_code
            is Some,
    ensures
        sum_vals_u16(s.status_codes@) == s.total_requests,
{
    lemma_all_status_counted(s.recorded@);
}

/// No endpoint outgrows the whole run: each sub-aggregate's requests,
/// bytes and errors are bounded by the global counters.
pub proof fn lemma_endpoint_bounds(s: &Statistics, i: int)
    requires
        s.wf(),
        0 <= i < s.endpoint_stats@.len(),
    ensures
        s.endpoint_stats@[i].1.requests <= s.total_requests,
        s.endpoint_stats@[i].1.total_bytes <= s.total_bytes,
        s.endpoint_stats@[i].1.errors <= s.failed_requests,
{
    let url = s.endpoint_stats@[i].0@;
    lemma_filter_endpoint_len(s.recorded@, url);
    lemma_filter_endpoint_bounds(s.recorded@, url);
}

/// Finishing is idempotent in effect: a finished value is a fixed point of
/// `spec_finish`, so anything read after `finish` — a snapshot included —
/// reads the same state no matter how often `finish` ran.
pub proof fn lemma_finish_idempotent(s: Statistics, n1: u64, n2: u64)
    ensures
        spec_finish(s, n1).end_micros is Some,
        spec_finish(spec_finish(s, n1), n2) == spec_finish(s, n1),
{
}

// ---- snapshots for readers ----

/// A deep, immutable copy of one endpoint's sub-aggregate.
#[derive(Clone)]
pub struct EndpointStatsSnapshot {
    pub url: String,
    pub requests: u64,
    pub errors: u64,
    pub total_bytes: u64,
    pub avg_latency_micros: u64,
    pub min_latency_micros: u64,
    pub max_latency_micros: u64,
    pub status_codes: Vec<(u16, u64)>,
}

/// A deep, immutable copy of the aggregate with pre-computed percentiles,
/// safe to hand across the reader boundary.
#[derive(Clone)]
pub struct StatisticsSnapshot {
    pub total_requests: u64,
    pub successful_requests: u64,
    pub failed_requests: u64,
    pub total_bytes: u64,
    pub avg_latency_micros: u64,
    pub min_latency_micros: u64,
    pub max_latency_micros: u64,
    pub p50_latency_micros: u64,
    pub p75_latency_micros: u64,
    pub p90_latency_micros: u64,
    pub p95_latency_micros: u64,
    pub p99_latency_micros: u64,
    pub status_codes: Vec<(u16, u64)>,
    pub errors: Vec<(String, u64)>,
    pub endpoint_stats: Vec<EndpointStatsSnapshot>,
}

/// What a snapshot of one endpoint holds, determined by the sub-aggregate.
pub open spec fn ep_snapshot_of(r: EndpointStatsSnapshot, url: String, ep: EndpointStats) -> bool {
    &&& r.url@ == url@
    &&& r.requests == ep.requests
    &&& r.errors == ep.errors
    &&& r.total_bytes == ep.total_bytes
    &&& r.avg_latency_micros == ep.latency_histogram.spec_mean()
    &&& r.min_latency_micros == ep.latency_histogram.spec_min()
    &&& r.max_latency_micros == ep.latency_histogram.spec_max()
    &&& r.status_codes@ == ep.status_codes@
}

/// What a snapshot holds, determined field by field by the statistics it
/// was taken from.
pub open spec fn snapshot_of(r: StatisticsSnapshot, s: Statistics) -> bool {
    &&& r.total_requests == s.total_requests
    &&& r.successful_requests == s.successful_requests
    &&& r.failed_requests == s.failed_requests
    &&& r.total_bytes == s.total_bytes
    &&& r.avg_latency_micros == s.latency_histogram.spec_mean()
    &&& r.min_latency_micros == s.latency_histogram.spec_min()
    &&& r.max_latency_micros == s.latency_histogram.spec_max()
    &&& r.p50_latency_micros == s.latency_histogram.spec_percentile(50)
    &&& r.p75_latency_micros == s.latency_histogram.spec_percentile(75)
    &&& r.p90_latency_micros == s.latency_histogram.spec_percentile(90)
    &&& r.p95_latency_micros == s.latency_histogram.spec_percentile(95)
    &&& r.p99_latency_micros == s.latency_histogram.spec_percentile(99)
    &&& r.status_codes@ == s.status_codes@
    &&& r.errors@ == s.errors@
    &&& r.endpoint_stats@.len() == s.endpoint_stats@.len()
    &&& forall|i: int|
        0 <= i < s.endpoint_stats@.len() ==> ep_snapshot_of(
            #[trigger] r.endpoint_stats@[i],
            s.endpoint_stats@[i].0,
            s.endpoint_stats@[i].1,
        )
}

/// A copy of a status-counter map.
fn copy_u16_map(m: &Vec<(u16, u64)>) -> (r: Vec<(u16, u64)>)
    ensures
        r@ == m@,
{
    let mut r: Vec<(u16, u64)> = Vec::new();
    let mut i: usize = 0;
    while i < m.len()
        invariant
            i <= m@.len(),
            r@ == m@.subrange(0, i as int),
        decreases m@.len() - i,
    {
        r.push((m[i].0, m[i].1));
        i = i + 1;
        assert(r@ =~= m@.subrange(0, i as int));
    }
    assert(r@ =~= m@);
    r
}

/// A copy of an error-counter map.
fn copy_str_map(m: &Vec<(String, u64)>) -> (r: Vec<(String, u64)>)
    ensures
        r@ == m@,
{
    let mut r: Vec<(String, u64)> = Vec::new();
    let mut i: usize = 0;
    while i < m.len()
        invariant
            i <= m@.len(),
            r@ == m@.subrange(0, i as int),
        decreases m@.len() - i,
    {
        r.push((m[i].0.clone(), m[i].1));
        assert(r@ =~= m@.subrange(0, i + 1));
        i = i + 1;
    }
    assert(r@ =~= m@);
    r
}

impl StatisticsSnapshot {
    /// The snapshot of a run that has seen nothing yet.
    pub fn empty() -> (r: StatisticsSnapshot)
        ensures
            r.total_requests == 0,
            r.successful_requests == 0,
            r.failed_requests == 0,
            r.total_bytes == 0,
            r.avg_latency_micros == 0,
            r.min_latency_micros == 0,
            r.max_latency_micros == 0,
            r.p50_latency_micros == 0,
            r.p75_latency_micros == 0,
            r.p90_latency_micros == 0,
            r.p95_latency_micros == 0,
            r.p99_latency_micros == 0,
            r.status_codes@.len() == 0,
            r.errors@.len() == 0,
            r.endpoint_stats@.len() == 0,
    {
        StatisticsSnapshot {
            total_requests: 0,
            successful_requests: 0,
            failed_requests: 0,
            total_bytes: 0,
            avg_latency_micros: 0,
            min_latency_micros: 0,
            max_latency_micros: 0,
            p50_latency_micros: 0,
            p75_latency_micros: 0,
            p90_latency_micros: 0,
            p95_latency_micros: 0,
            p99_latency_micros: 0,
            status_codes: Vec::new(),
            errors: Vec::new(),
            endpoint_stats: Vec::new(),
        }
    }

    /// A deep copy of the aggregate: every field of the result is the
    /// corresponding reading of `stats`.
    pub fn from_statistics(stats: &Statistics) -> (r: StatisticsSnapshot)
        requires
            stats.wf(),
        ensures
            snapshot_of(r, *stats),
    {
        let n = stats.endpoint_stats.len();
        let mut eps: Vec<EndpointStatsSnapshot> = Vec::new();
        let mut i: usize = 0;
        while i < n
            invariant
                stats.wf(),
                n == stats.endpoint_stats@.len(),
                i <= n,
                eps@.len() == i,
                forall|j: int|
                    0 <= j < i ==> ep_snapshot_of(
                        #[trigger] eps@[j],
                        stats.endpoint_stats@[j].0,
                        stats.endpoint_stats@[j].1,
                    ),
            decreases n - i,
        {
            let snap = EndpointStatsSnapshot {
                url: stats.endpoint_stats[i].0.clone(),
                requests: stats.endpoint_stats[i].1.requests,
                errors: stats.endpoint_stats[i].1.errors,
                total_bytes: stats.endpoint_stats[i].1.total_bytes,
                avg_latency_micros: stats.endpoint_stats[i].1.latency_histogram.mean(),
                min_latency_micros: stats.endpoint_stats[i].1.latency_histogram.min(),
                max_latency_micros: stats.endpoint_stats[i].1.latency_histogram.max(),
                status_codes: copy_u16_map(&stats.endpoint_stats[i].1.status_codes),
            };
            eps.push(snap);
            i = i + 1;
        }
        StatisticsSnapshot {
            total_requests: stats.total_requests,
            successful_requests: stats.successful_requests,
            failed_requests: stats.failed_requests,
            total_bytes: stats.total_bytes,
            avg_latency_micros: stats.latency_histogram.mean(),
            min_latency_micros: stats.latency_histogram.min(),
            max_latency_micros: stats.latency_histogram.max(),
            p50_latency_micros: stats.latency_histogram.percentile(50),
            p75_latency_micros: stats.latency_histogram.percentile(75),
            p90_latency_micros: stats.latency_histogram.percentile(90),
            p95_latency_micros: stats.latency_histogram.percentile(95),
            p99_latency_micros: stats.latency_histogram.percentile(99),
            status_codes: copy_u16_map(&stats.status_codes),
            errors: copy_str_map(&stats.errors),
            endpoint_stats: eps,
        }
    }
}

/// Two snapshots of the same statistics read the same contents.  With
/// `lemma_finish_idempotent`, snapshots taken after `finish` all agree.
pub proof fn lemma_snapshots_agree(s: Statistics, r1: StatisticsSnapshot, r2: StatisticsSnapshot)
    requires
        snapshot_of(r1, s),
        snapshot_of(r2, s),
    ensures
        r1.total_requests == r2.total_requests,
        r1.successful_requests == r2.successful_requests,
        r1.failed_requests == r2.failed_requests,
        r1.total_bytes == r2.total_bytes,
        r1.avg_latency_micros == r2.avg_latency_micros,
        r1.min_latency_micros == r2.min_latency_micros,
        r1.max_latency_micros == r2.max_latency_micros,
        r1.p50_latency_micros == r2.p50_latency_micros,
        r1.p75_latency_micros == r2.p75_latency_micros,
        r1.p90_latency_micros == r2.p90_latency_micros,
        r1.p95_latency_micros == r2.p95_latency_micros,
        r1.p99_latency_micros == r2.p99_latency_micros,
        r1.status_codes@ == r2.status_codes@,
        r1.errors@ == r2.errors@,
        r1.endpoint_stats@.len() == r2.endpoint_stats@.len(),
        forall|i: int|
            0 <= i < r1.endpoint_stats@.len() ==> (#[trigger] r1.endpoint_stats@[i]).url@
                == (#[trigger] r2.endpoint_stats@[i]).url@ && r1.endpoint_stats@[i].requests
                == r2.endpoint_stats@[i].requests && r1.endpoint_stats@[i].errors
                == r2.endpoint_stats@[i].errors && r1.endpoint_stats@[i].total_bytes
                == r2.endpoint_stats@[i].total_bytes && r1.endpoint_stats@[i].status_codes@
                == r2.endpoint_stats@[i].status_codes@,
{
}

/// Folds a tagged outcome into its endpoint's sub-aggregate, creating the
/// entry on first sight of the endpoint.  `rs` is the run recorded so far.
fn record_endpoint(
    eps: &mut Vec<(String, EndpointStats)>,
    result: &RequestResult,
    Ghost(rs): Ghost<Seq<RequestResult>>,
)
    requires
        eps_wf(old(eps)@, rs),
        result.endpoint is Some,
        rs.len() < u64::MAX,
        sum_bytes(rs) + result.bytes_read <= u64::MAX,
        0 <= sum_bytes(rs),
    ensures
        eps_wf(final(eps)@, rs.push(*result)),
{
    let ghost nrs = rs.push(*result);
    let ghost url_view = result.endpoint->0@;
    proof {
        assert(nrs.drop_last() =~= rs);
        lemma_filter_endpoint_len(rs, url_view);
        lemma_filter_endpoint_bounds(rs, url_view);
        assert forall|url: Seq<char>| url != url_view implies #[trigger] filter_endpoint(nrs, url)
            == filter_endpoint(rs, url) by {
            assert(filter_endpoint(nrs, url).len() >= 0);
        }
        assert(filter_endpoint(nrs, url_view) == filter_endpoint(rs, url_view).push(*result));
    }
    let url: String = match &result.endpoint {
        Some(u) => u.clone(),
        None => String::new(),
    };
    match find_key_ep(eps, url.as_str()) {
        Some(i) => {
            let ghost before = eps@;
            let (key, mut ep) = eps.remove(i);
            proof {
                before.remove_ensures(i as int);
                assert(key@ == url_view);
                assert(ep.wf() && ep.recorded@ == filter_endpoint(rs, url_view));
            }
            ep.record(result);
            eps.push((key, ep));
            proof {
                let after = eps@;
                assert(after == before.remove(i as int).push((key, ep)));
                assert(after.len() == before.len());
                // every entry but the last is an old entry with another key
                assert(forall|j: int|
                    0 <= j < after.len() - 1 ==> #[trigger] after[j] == (if j < i {
                        before[j]
                    } else {
                        before[j + 1]
                    }));
                assert(unique_keys_ep(after)) by {
                    assert forall|a: int, b: int| 0 <= a < b < after.len() implies (
                    #[trigger] after[a]).0@ != (#[trigger] after[b]).0@ by {
                        if b == after.len() - 1 {
                            assert(after[b].0@ == url_view);
                            let oa: int = if a < i {
                                a
                            } else {
                                a + 1
                            };
                            assert(after[a] == before[oa] && oa != i);
                        }
                    }
                }
                assert forall|j: int| 0 <= j < after.len() implies (#[trigger] after[j]).1.wf()
                    && after[j].1.recorded@ == filter_endpoint(nrs, after[j].0@) by {
                    if j < after.len() - 1 {
                        let oj: int = if j < i {
                            j
                        } else {
                            j + 1
                        };
                        assert(after[j] == before[oj] && oj != i);
                        assert(before[oj].0@ != url_view);
                    }
                }
                assert forall|url2: Seq<char>| #[trigger] filter_endpoint(nrs, url2).len() > 0
                    implies has_ep_key(after, url2) by {
                    if url2 == url_view {
                        assert(after[after.len() - 1].0@ == url_view);
                    } else {
                        assert(filter_endpoint(rs, url2).len() > 0);
                        let w = choose|w: int| 0 <= w < before.len() && (#[trigger] before[w]).0@
                            == url2;
                        let nw: int = if w < i {
                            w
                        } else {
                            w - 1
                        };
                        assert(w != i);
                        assert(after[nw] == before[w]);
                    }
                }
            }
        },
        None => {
            let ghost before = eps@;
            let mut ep = EndpointStats::new();
            proof {
                // no entry for this endpoint, so nothing was tagged with it
                if filter_endpoint(rs, url_view).len() > 0 {
                    assert(has_ep_key(before, url_view));
                    assert(false);
                }
                assert(filter_endpoint(rs, url_view) =~= Seq::<RequestResult>::empty());
            }
            ep.record(result);
            eps.push((url, ep));
            proof {
                let after = eps@;
                assert(forall|j: int| 0 <= j < before.len() ==> #[trigger] after[j] == before[j]);
                assert(after[after.len() - 1] == (url, ep));
                assert(ep.recorded@ =~= filter_endpoint(nrs, url_view));
                assert forall|url2: Seq<char>| #[trigger] filter_endpoint(nrs, url2).len() > 0
                    implies has_ep_key(after, url2) by {
                    if url2 == url_view {
                        assert(after[after.len() - 1].0@ == url_view);
                    } else {
                        assert(filter_endpoint(rs, url2).len() > 0);
                        let w = choose|w: int| 0 <= w < before.len() && (#[trigger] before[w]).0@
                            == url2;
                        assert(after[w] == before[w]);
                    }
                }
            }
        },
    }
}

} // verus!
