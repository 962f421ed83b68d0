//! The endpoint tester's decision core: probe-round summarization, the
//! final per-endpoint selection, synthesis of results for endpoints whose
//! task never reported, the probe request line, and the response check. The
//! network loop around these decisions performs no selection of its own.

use crate::probe::{
    latencies_sorted, successful_samples, summarize_rounds, Endpoint, EndpointResult,
};
use vstd::prelude::*;

verus! {

/// The most candidate probes in flight for one endpoint.
pub const MAX_IP_CONCURRENCY_PER_ENDPOINT: u64 = 6;

/// Seconds allowed for one DNS lookup.
pub const DNS_LOOKUP_TIMEOUT_SECS: u64 = 10;

/// Seconds allowed for one address probe.
pub const SINGLE_IP_TEST_TIMEOUT_SECS: u64 = 8;

/// Seconds allowed for the whole candidate phase of one endpoint.
pub const IP_TEST_TOTAL_TIMEOUT_SECS: u64 = 45;

/// A latency tester's configuration and cancellation flag. The network side
/// feeds probe outcomes back into the decision functions below.
pub struct EndpointTester {
    pub custom_cf_ips: Vec<String>,
    pub test_rounds: u32,
    pub cancelled: bool,
}

impl EndpointTester {
    /// A tester over the user's preferred addresses, probing each address
    /// a clamped number of rounds.
    pub fn new(custom_cf_ips: Vec<String>, test_rounds: u32) -> (r: EndpointTester)
        ensures
            r.custom_cf_ips == custom_cf_ips,
            r.test_rounds == (if test_rounds < 1 {
                1u32
            } else if test_rounds > 5 {
                5u32
            } else {
                test_rounds
            }),
            1 <= r.test_rounds <= 5,
            !r.cancelled,
    {
        let rounds = if test_rounds < 1 {
            1
        } else if test_rounds > 5 {
            5
        } else {
            test_rounds
        };
        EndpointTester { custom_cf_ips, test_rounds: rounds, cancelled: false }
    }

    /// Raises the cancellation flag; probes already decided are unaffected
    /// and no new probe is planned once the flag is up.
    pub fn cancel(&mut self)
        ensures
            final(self).cancelled,
            final(self).custom_cf_ips == old(self).custom_cf_ips,
            final(self).test_rounds == old(self).test_rounds,
    {
        self.cancelled = true;
    }

    /// Whether cancellation was requested.
    pub fn is_cancelled(&self) -> (r: bool)
        ensures
            r == self.cancelled,
    {
        self.cancelled
    }
}

/// The result of probing one address for several rounds: a failed first
/// round fails the address outright; otherwise the reported latency is the
/// median of the successful rounds and later failures are ignored.
pub fn single_ip_outcome(endpoint: Endpoint, ip: String, outcomes: &Vec<Option<u64>>) -> (r:
    EndpointResult)
    requires
        outcomes.len() >= 1,
        ip@.len() > 0,
        forall|i: int|
            0 <= i < outcomes@.len() ==> ((#[trigger] outcomes@[i]) matches Some(v) ==> 0 < v
                < crate::FAILURE_LATENCY_MS),
    ensures
        crate::probe::result_consistent(r),
        r.endpoint == endpoint,
        r.ip@ == ip@,
        outcomes@[0] is None ==> (!r.success && (r.error matches Some(e))),
        outcomes@[0] is Some ==> (r.success && (exists|t: Seq<u64>|
            {
                &&& latencies_sorted(t)
                &&& t.to_multiset() == successful_samples(outcomes@).to_multiset()
                &&& t.len() > 0
                &&& r.latency == t[t.len() as int / 2]
            })),
{
    match summarize_rounds(outcomes) {
        Some(median) => {
            proof {
                let t = choose|t: Seq<u64>|
                    {
                        &&& latencies_sorted(t)
                        &&& t.to_multiset() == successful_samples(outcomes@).to_multiset()
                        &&& t.len() > 0
                        &&& median == t[t.len() as int / 2]
                    };
                lemma_samples_in_range(outcomes@, t);
            }
            EndpointResult::success(endpoint, ip, median)
        },
        None => EndpointResult::failure(endpoint, ip, "first round failed".to_owned()),
    }
}

/// Every member of a collection of successful samples lies in the probe
/// range.
proof fn lemma_samples_in_range(outcomes: Seq<Option<u64>>, t: Seq<u64>)
    requires
        forall|i: int|
            0 <= i < outcomes.len() ==> ((#[trigger] outcomes[i]) matches Some(v) ==> 0 < v
                < crate::FAILURE_LATENCY_MS),
        t.to_multiset() == successful_samples(outcomes).to_multiset(),
    ensures
        forall|k: int| 0 <= k < t.len() ==> 0 < #[trigger] t[k] < crate::FAILURE_LATENCY_MS,
{
    broadcast use vstd::seq_lib::group_to_multiset_ensures;

    lemma_successful_samples_range(outcomes);
    assert forall|k: int| 0 <= k < t.len() implies 0 < #[trigger] t[k]
        < crate::FAILURE_LATENCY_MS by {
        assert(t.contains(t[k]));
        assert(t.to_multiset().count(t[k]) > 0);
        assert(successful_samples(outcomes).to_multiset().count(t[k]) > 0);
        assert(successful_samples(outcomes).contains(t[k]));
        let w = choose|w: int|
            0 <= w < successful_samples(outcomes).len() && successful_samples(outcomes)[w] == t[k];
    }
}

proof fn lemma_successful_samples_range(outcomes: Seq<Option<u64>>)
    requires
        forall|i: int|
            0 <= i < outcomes.len() ==> ((#[trigger] outcomes[i]) matches Some(v) ==> 0 < v
                < crate::FAILURE_LATENCY_MS),
    ensures
        forall|k: int|
            0 <= k < successful_samples(outcomes).len() ==> 0 < #[trigger] successful_samples(
                outcomes,
            )[k] < crate::FAILURE_LATENCY_MS,
    decreases outcomes.len(),
{
    if outcomes.len() > 0 {
        let p = outcomes.drop_last();
        assert(forall|i: int| 0 <= i < p.len() ==> p[i] == outcomes[i]);
        lemma_successful_samples_range(p);
        assert(outcomes[outcomes.len() - 1] == outcomes.last());
        assert forall|k: int|
            0 <= k < successful_samples(outcomes).len() implies 0 < #[trigger] successful_samples(
            outcomes,
        )[k] < crate::FAILURE_LATENCY_MS by {
            if k < successful_samples(p).len() {
                assert(successful_samples(outcomes)[k] == successful_samples(p)[k]);
            }
        }
    }
}

/// The final selection for one endpoint. A best candidate wins outright; a
/// working original address is the fallback, with a warning when a
/// preferred list was configured but none of it answered; with nothing
/// working the endpoint fails.
pub fn finalize_endpoint_result(
    endpoint: Endpoint,
    best: Option<(String, u64)>,
    original_ip: String,
    original_success: bool,
    original_latency: u64,
    custom_nonempty: bool,
    is_cf: bool,
) -> (r: EndpointResult)
    requires
        best matches Some(b) ==> 0 < b.1 < crate::FAILURE_LATENCY_MS,
        original_success ==> 0 < original_latency < crate::FAILURE_LATENCY_MS,
    ensures
        crate::probe::result_consistent(r),
        r.endpoint == endpoint,
        best matches Some(b) ==> (r.success && r.ip@ == b.0@ && r.latency == b.1
            && r.original_ip@ == original_ip@ && r.speedup_percent == crate::probe::speedup_spec(
            (if original_success {
                original_latency
            } else {
                crate::FAILURE_LATENCY_MS
            }),
            b.1,
        ) && (r.use_original <==> b.0@ == original_ip@)),
        best is None && original_success ==> (r.success && r.ip@ == original_ip@ && r.latency
            == original_latency && r.use_original && (r.warning is Some <==> custom_nonempty)),
        best is None && !original_success ==> (!r.success && r.ip@ == original_ip@
            && r.latency == crate::FAILURE_LATENCY_MS),
{
    match best {
        Some((best_ip, best_latency)) => {
            let original_latency_value = if original_success {
                original_latency
            } else {
                crate::FAILURE_LATENCY_MS
            };
            EndpointResult::success_with_comparison(
                endpoint,
                best_ip,
                best_latency,
                original_ip,
                original_latency_value,
            )
        },
        None => {
            if original_success {
                let mut r = EndpointResult::success_with_comparison(
                    endpoint,
                    original_ip.clone(),
                    original_latency,
                    original_ip,
                    original_latency,
                );
                if custom_nonempty {
                    let mut warning =
                        "every preferred address failed; fell back to the DNS answer".to_owned();
                    if !is_cf {
                        warning.append(
                            "; the domain is not a Cloudflare host, so the preferred list does not apply",
                        );
                    }
                    r.warning = Some(warning);
                }
                r
            } else {
                EndpointResult::failure(endpoint, original_ip, "all probes timed out".to_owned())
            }
        },
    }
}

/// Some result in the set answers for the domain.
pub open spec fn results_have_domain(rs: Seq<EndpointResult>, d: Seq<char>) -> bool {
    exists|k: int| 0 <= k < rs.len() && (#[trigger] rs[k]).endpoint.domain@ == d
}

/// Every started endpoint's domain has some result in the set.
pub open spec fn covers_domains(spawned: Seq<Endpoint>, rs: Seq<EndpointResult>) -> bool
    decreases spawned.len(),
{
    if spawned.len() == 0 {
        true
    } else {
        results_have_domain(rs, spawned.last().domain@) && covers_domains(
            spawned.drop_last(),
            rs,
        )
    }
}

/// A result set that covers some domains still covers them after growing.
proof fn lemma_covers_extend(spawned: Seq<Endpoint>, rs: Seq<EndpointResult>, rs2: Seq<
    EndpointResult,
>)
    requires
        covers_domains(spawned, rs),
        rs.len() <= rs2.len(),
        forall|k: int| 0 <= k < rs.len() ==> rs2[k] == rs[k],
    ensures
        covers_domains(spawned, rs2),
    decreases spawned.len(),
{
    if spawned.len() > 0 {
        lemma_covers_extend(spawned.drop_last(), rs, rs2);
        let w = choose|w: int|
            0 <= w < rs.len() && (#[trigger] rs[w]).endpoint.domain@ == spawned.last().domain@;
        assert(rs2[w].endpoint.domain@ == spawned.last().domain@);
    }
}

/// Appends a synthesized failure for every endpoint whose probe task never
/// reported, so a batch answers for each endpoint it started.
pub fn fill_missing_results(spawned: &Vec<Endpoint>, results: Vec<EndpointResult>) -> (r: Vec<
    EndpointResult,
>)
    ensures
        r@.len() >= results@.len(),
        forall|k: int| 0 <= k < results@.len() ==> r@[k] == results@[k],
        forall|k: int|
            results@.len() <= k < r@.len() ==> (!(#[trigger] r@[k]).success
                && crate::probe::result_consistent(r@[k])),
        covers_domains(spawned@, r@),
{
    let ghost base = results@;
    let mut out = results;
    let n = spawned.len();
    let mut i: usize = 0;
    proof {
        assert(spawned@.take(0).len() == 0);
    }
    while i < n
        invariant
            0 <= i <= n,
            n == spawned.len(),
            out@.len() >= base.len(),
            forall|k: int| 0 <= k < base.len() ==> out@[k] == base[k],
            forall|k: int|
                base.len() <= k < out@.len() ==> (!(#[trigger] out@[k]).success
                    && crate::probe::result_consistent(out@[k])),
            covers_domains(spawned@.take(i as int), out@),
        decreases n - i,
    {
        let ghost prefix = spawned@.take(i as int);
        proof {
            assert(spawned@.take(i as int + 1).drop_last() =~= prefix);
            assert(spawned@.take(i as int + 1).last() == spawned@[i as int]);
        }
        let mut found = false;
        let mut k: usize = 0;
        while k < out.len()
            invariant
                0 <= k <= out.len(),
                i < spawned@.len(),
                found ==> results_have_domain(out@, spawned@[i as int].domain@),
            decreases out.len() - k,
        {
            if crate::text::str_eq(
                out[k].endpoint.domain.as_str(),
                spawned[i].domain.as_str(),
            ) {
                found = true;
                proof {
                    assert(out@[k as int].endpoint.domain@ == spawned@[i as int].domain@);
                }
                k = out.len();
            } else {
                k = k + 1;
            }
        }
        if found {
            proof {
                assert(results_have_domain(out@, spawned@[i as int].domain@));
                assert(covers_domains(spawned@.take(i as int + 1), out@));
            }
        }
        if !found {
            let ghost before = out@;
            let missing = spawned[i].duplicate();
            let fr = EndpointResult::failure(
                missing,
                String::new(),
                "task crashed or timed out".to_owned(),
            );
            proof {
                assert(fr.endpoint == spawned@[i as int]);
            }
            out.push(fr);
            proof {
                assert(out@[out@.len() - 1].endpoint.domain@ == spawned@[i as int].domain@);
                assert(results_have_domain(out@, spawned@[i as int].domain@));
                lemma_covers_extend(prefix, before, out@);
                assert(covers_domains(spawned@.take(i as int + 1), out@));
            }
        }
        i = i + 1;
    }
    proof {
        assert(spawned@.take(n as int) =~= spawned@);
    }
    out
}

/// The probe request line sent once the secure stream is up. The exact text
/// is fixed here: the only variable part is the domain, so a domain that
/// passed validation (which admits no control characters) cannot smuggle a
/// header or a second request into the stream.
pub fn build_head_request(domain: &str) -> (r: String)
    ensures
        r@ == "HEAD / HTTP/1.1\r\nHost: "@ + domain@
            + "\r\nUser-Agent: anyrouter/1.0\r\nConnection: close\r\n\r\n"@,
{
    let mut req = "HEAD / HTTP/1.1\r\nHost: ".to_owned();
    req.append(domain);
    req.append("\r\nUser-Agent: anyrouter/1.0\r\nConnection: close\r\n\r\n");
    req
}

/// Whether a probe's response bytes begin with the HTTP marker `HTTP/`,
/// which is what makes a probe count as answered.
pub fn response_is_http(buf: &Vec<u8>) -> (r: bool)
    ensures
        r == (buf@.len() >= 5 && buf@[0] == 72 && buf@[1] == 84 && buf@[2] == 84 && buf@[3] == 80
            && buf@[4] == 47),
{
    buf.len() >= 5 && buf[0] == 72 && buf[1] == 84 && buf[2] == 84 && buf[3] == 80 && buf[4] == 47
}

} // verus!
