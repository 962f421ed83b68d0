//! Probe results: what one latency measurement of an endpoint reports, and
//! the operations on collections of results. Latencies are integral
//! milliseconds; a failed probe carries the sentinel latency.

use vstd::multiset::Multiset;
use vstd::prelude::*;

verus! {

/// A configured endpoint: a display name, an advisory URL, the DNS name to
/// pin, and whether it takes part in tests.
pub struct Endpoint {
    pub name: String,
    pub url: String,
    pub domain: String,
    pub enabled: bool,
}

impl Endpoint {
    /// A field-for-field copy.
    pub fn duplicate(&self) -> (r: Endpoint)
        ensures
            r == *self,
    {
        Endpoint {
            name: self.name.clone(),
            url: self.url.clone(),
            domain: self.domain.clone(),
            enabled: self.enabled,
        }
    }
}

/// The outcome of measuring one endpoint against one address.
pub struct EndpointResult {
    pub endpoint: Endpoint,
    pub ip: String,
    pub latency: u64,
    pub ttfb: u64,
    pub success: bool,
    pub error: Option<String>,
    pub warning: Option<String>,
    pub original_ip: String,
    pub original_latency: u64,
    pub speedup_percent: u64,
    pub use_original: bool,
}

/// The speedup a chosen address gives over the original one, as a whole
/// percentage, never negative.
pub open spec fn speedup_spec(original_latency: u64, latency: u64) -> int {
    if original_latency > 0 && latency < crate::FAILURE_LATENCY_MS && latency < original_latency {
        ((original_latency - latency) * 100) / (original_latency as int)
    } else {
        0
    }
}

/// Probe result consistency: a failure carries the sentinel latency and no
/// comparison data; a success carries a real latency below the sentinel and
/// marks `use_original` exactly when the chosen address is the original one.
pub open spec fn result_consistent(r: EndpointResult) -> bool {
    &&& !r.success ==> (r.latency == crate::FAILURE_LATENCY_MS && r.speedup_percent == 0
        && !r.use_original)
    &&& r.success ==> 0 < r.latency < crate::FAILURE_LATENCY_MS
    &&& r.success ==> (r.use_original <==> r.ip@ == r.original_ip@)
    &&& r.speedup_percent >= 0
}

impl EndpointResult {
    /// A plain success with no comparison data.
    pub fn success(endpoint: Endpoint, ip: String, latency: u64) -> (r: EndpointResult)
        requires
            0 < latency < crate::FAILURE_LATENCY_MS,
            ip@.len() > 0,
        ensures
            result_consistent(r),
            r.success,
            r.ip@ == ip@,
            r.latency == latency,
            r.ttfb == latency,
            r.error is None,
            r.original_ip@ == Seq::<char>::empty(),
            r.original_latency == 0,
            r.speedup_percent == 0,
            !r.use_original,
            r.endpoint == endpoint,
            r.warning is None,
    {
        let r = EndpointResult {
            endpoint,
            ip,
            latency,
            ttfb: latency,
            success: true,
            error: None,
            warning: None,
            original_ip: String::new(),
            original_latency: 0,
            speedup_percent: 0,
            use_original: false,
        };
        proof {
            assert(r.ip@ != r.original_ip@) by {
                assert(r.original_ip@.len() == 0);
            }
        }
        r
    }

    /// A success compared against the original DNS address: reports the
    /// speedup and whether the chosen address is the original one.
    pub fn success_with_comparison(
        endpoint: Endpoint,
        ip: String,
        latency: u64,
        original_ip: String,
        original_latency: u64,
    ) -> (r: EndpointResult)
        requires
            0 < latency < crate::FAILURE_LATENCY_MS,
            original_latency <= crate::FAILURE_LATENCY_MS,
        ensures
            result_consistent(r),
            r.success,
            r.ip@ == ip@,
            r.latency == latency,
            r.original_ip@ == original_ip@,
            r.original_latency == original_latency,
            r.speedup_percent == speedup_spec(original_latency, latency),
            r.use_original <==> ip@ == original_ip@,
            r.endpoint == endpoint,
            r.error is None,
            r.warning is None,
    {
        let speedup: u64 = if original_latency > 0 && latency < crate::FAILURE_LATENCY_MS
            && latency < original_latency {
            ((original_latency - latency) * 100) / original_latency
        } else {
            0
        };
        let use_original = crate::text::str_eq(ip.as_str(), original_ip.as_str());
        EndpointResult {
            endpoint,
            ip,
            latency,
            ttfb: latency,
            success: true,
            error: None,
            warning: None,
            original_ip,
            original_latency,
            speedup_percent: speedup,
            use_original,
        }
    }

    /// A failure with its reason; the latency is the sentinel.
    pub fn failure(endpoint: Endpoint, ip: String, error: String) -> (r: EndpointResult)
        ensures
            result_consistent(r),
            !r.success,
            r.ip@ == ip@,
            r.latency == crate::FAILURE_LATENCY_MS,
            r.ttfb == crate::FAILURE_LATENCY_MS,
            r.error matches Some(e) && e@ == error@,
            r.speedup_percent == 0,
            !r.use_original,
            r.endpoint == endpoint,
            r.warning is None,
    {
        EndpointResult {
            endpoint,
            ip,
            latency: crate::FAILURE_LATENCY_MS,
            ttfb: crate::FAILURE_LATENCY_MS,
            success: false,
            error: Some(error),
            warning: None,
            original_ip: String::new(),
            original_latency: 0,
            speedup_percent: 0,
            use_original: false,
        }
    }
}

/// Ascending order on latencies.
pub open spec fn latencies_sorted(s: Seq<u64>) -> bool {
    forall|i: int, j: int| 0 <= i < j < s.len() ==> s[i] <= s[j]
}

/// Sorts latency samples ascending, preserving the collection.
pub fn sort_latencies(v: Vec<u64>) -> (r: Vec<u64>)
    ensures
        latencies_sorted(r@),
        r@.to_multiset() == v@.to_multiset(),
        r.len() == v.len(),
{
    broadcast use vstd::multiset::group_multiset_axioms;

    let mut rest = v;
    let mut out: Vec<u64> = Vec::new();
    proof {
        out@.to_multiset_ensures();
        assert(out@.to_multiset() =~= Multiset::empty()) by {
            assert(out@.to_multiset().len() == 0);
            vstd::multiset::lemma_multiset_empty_len(out@.to_multiset());
        }
        assert(out@.to_multiset().add(rest@.to_multiset()) =~= rest@.to_multiset());
    }
    while rest.len() > 0
        invariant
            latencies_sorted(out@),
            out@.to_multiset().add(rest@.to_multiset()) == v@.to_multiset(),
            out.len() + rest.len() == v.len(),
            forall|i: int, j: int|
                0 <= i < out@.len() && 0 <= j < rest@.len() ==> out@[i] <= rest@[j],
        decreases rest.len(),
    {
        let mut min_i: usize = 0;
        let mut i: usize = 1;
        while i < rest.len()
            invariant
                0 <= min_i < rest.len(),
                min_i < i <= rest.len() || (i <= rest.len() && min_i == 0),
                forall|k: int| 0 <= k < i ==> rest@[min_i as int] <= rest@[k],
            decreases rest.len() - i,
        {
            if rest[i] < rest[min_i] {
                min_i = i;
            }
            i = i + 1;
        }
        let ghost rest0 = rest@;
        let x = rest.remove(min_i);
        let ghost out0 = out@;
        out.push(x);
        proof {
            assert(rest0[min_i as int] == x);
            assert(rest0.contains(x));
            assert(rest@ == rest0.remove(min_i as int));
            assert(rest0.remove(min_i as int).to_multiset() =~= rest0.to_multiset().remove(x)) by {
                rest0.to_multiset_ensures();
            }
            assert(out@ == out0.push(x));
            assert(out0.push(x).to_multiset() =~= out0.to_multiset().insert(x)) by {
                out0.to_multiset_ensures();
            }
            assert(rest0.to_multiset().count(x) > 0) by {
                rest0.to_multiset_ensures();
            }
            assert(out@.to_multiset().add(rest@.to_multiset()) =~= v@.to_multiset()) by {
                assert(out@.to_multiset() == out0.to_multiset().insert(x));
                assert(rest@.to_multiset() == rest0.to_multiset().remove(x));
                assert(rest0.to_multiset().count(x) > 0);
                assert(out0.to_multiset().add(rest0.to_multiset()) == v@.to_multiset());
            }
            assert forall|i2: int, j2: int|
                0 <= i2 < out@.len() && 0 <= j2 < rest@.len() implies out@[i2] <= rest@[j2] by {
                if i2 < out0.len() {
                } else {
                    assert(out@[i2] == x);
                }
            }
        }
    }
    proof {
        rest@.to_multiset_ensures();
        assert(rest@.to_multiset() =~= Multiset::<u64>::empty()) by {
            assert(rest@.to_multiset().len() == 0);
            vstd::multiset::lemma_multiset_empty_len(rest@.to_multiset());
        }
        assert(out@.to_multiset().add(Multiset::<u64>::empty()) =~= out@.to_multiset());
    }
    out
}

/// The median of the successful samples of a probe run: the middle value of
/// the samples in ascending order (the upper middle for an even count).
/// Yields nothing when the first round failed — the address is treated as
/// unreachable — or when no round succeeded.
pub fn summarize_rounds(outcomes: &Vec<Option<u64>>) -> (r: Option<u64>)
    requires
        outcomes.len() >= 1,
    ensures
        outcomes@[0] is None ==> r is None,
        outcomes@[0] is Some ==> (r matches Some(med) && (exists|t: Seq<u64>|
            {
                &&& latencies_sorted(t)
                &&& t.to_multiset() == successful_samples(outcomes@).to_multiset()
                &&& t.len() > 0
                &&& med == t[t.len() as int / 2]
            })),
{
    if outcomes[0].is_none() {
        return None;
    }
    let mut samples: Vec<u64> = Vec::new();
    let mut i: usize = 0;
    proof {
        assert(successful_samples(outcomes@.take(0)) =~= Seq::<u64>::empty());
        assert(samples@ =~= successful_samples(outcomes@.take(0)));
    }
    while i < outcomes.len()
        invariant
            0 <= i <= outcomes.len(),
            samples@ == successful_samples(outcomes@.take(i as int)),
            outcomes@[0] is Some ==> (i >= 1 ==> samples@.len() >= 1),
        decreases outcomes.len() - i,
    {
        proof {
            assert(outcomes@.take(i as int + 1).drop_last() =~= outcomes@.take(i as int));
            assert(outcomes@.take(i as int + 1).last() == outcomes@[i as int]);
        }
        match outcomes[i] {
            Some(ms) => {
                samples.push(ms);
                proof {
                    if i == 0 {
                        assert(samples@.len() >= 1);
                    }
                }
            },
            None => {},
        }
        i = i + 1;
    }
    proof {
        assert(outcomes@.take(outcomes@.len() as int) =~= outcomes@);
    }
    let sorted = sort_latencies(samples);
    proof {
        sorted@.to_multiset_ensures();
        samples@.to_multiset_ensures();
        assert(sorted@.len() == sorted@.to_multiset().len());
    }
    let med = sorted[sorted.len() / 2];
    Some(med)
}

/// The successful samples of a probe run, in order.
pub open spec fn successful_samples(outcomes: Seq<Option<u64>>) -> Seq<u64>
    decreases outcomes.len(),
{
    if outcomes.len() == 0 {
        Seq::empty()
    } else {
        successful_samples(outcomes.drop_last()) + (match outcomes.last() {
            Some(ms) => seq![ms],
            None => Seq::<u64>::empty(),
        })
    }
}

/// The batch ordering: successes before failures, then ascending latency.
pub open spec fn result_le(a: EndpointResult, b: EndpointResult) -> bool {
    if a.success != b.success {
        a.success
    } else {
        a.latency <= b.latency
    }
}

/// Results in batch order.
pub open spec fn results_sorted(s: Seq<EndpointResult>) -> bool {
    forall|i: int, j: int| 0 <= i < j < s.len() ==> result_le(#[trigger] s[i], #[trigger] s[j])
}

/// Sorts a result set into batch order: successes first, each group in
/// ascending latency, the collection preserved.
pub fn sort_results(v: Vec<EndpointResult>) -> (r: Vec<EndpointResult>)
    ensures
        results_sorted(r@),
        r@.to_multiset() == v@.to_multiset(),
        r.len() == v.len(),
{
    broadcast use vstd::multiset::group_multiset_axioms;

    let mut rest = v;
    let mut out: Vec<EndpointResult> = Vec::new();
    proof {
        out@.to_multiset_ensures();
        assert(out@.to_multiset() =~= Multiset::empty()) by {
            assert(out@.to_multiset().len() == 0);
            vstd::multiset::lemma_multiset_empty_len(out@.to_multiset());
        }
        assert(out@.to_multiset().add(rest@.to_multiset()) =~= rest@.to_multiset());
    }
    while rest.len() > 0
        invariant
            results_sorted(out@),
            out@.to_multiset().add(rest@.to_multiset()) == v@.to_multiset(),
            out.len() + rest.len() == v.len(),
            forall|i: int, j: int|
                0 <= i < out@.len() && 0 <= j < rest@.len() ==> result_le(
                    #[trigger] out@[i],
                    #[trigger] rest@[j],
                ),
        decreases rest.len(),
    {
        let mut min_i: usize = 0;
        let mut i: usize = 1;
        while i < rest.len()
            invariant
                0 <= min_i < rest.len(),
                i <= rest.len(),
                forall|k: int| 0 <= k < i ==> result_le(rest@[min_i as int], #[trigger] rest@[k]),
            decreases rest.len() - i,
        {
            let better = if rest[i].success != rest[min_i].success {
                rest[i].success
            } else {
                rest[i].latency < rest[min_i].latency
            };
            if better {
                min_i = i;
            }
            i = i + 1;
        }
        let ghost rest0 = rest@;
        let x = rest.remove(min_i);
        let ghost out0 = out@;
        out.push(x);
        proof {
            assert(rest0[min_i as int] == x);
            assert(rest0.contains(x));
            assert(rest@ == rest0.remove(min_i as int));
            assert(rest0.remove(min_i as int).to_multiset() =~= rest0.to_multiset().remove(x)) by {
                rest0.to_multiset_ensures();
            }
            assert(out@ == out0.push(x));
            assert(out0.push(x).to_multiset() =~= out0.to_multiset().insert(x)) by {
                out0.to_multiset_ensures();
            }
            assert(rest0.to_multiset().count(x) > 0) by {
                rest0.to_multiset_ensures();
            }
            assert(out@.to_multiset().add(rest@.to_multiset()) =~= v@.to_multiset()) by {
                assert(out@.to_multiset() == out0.to_multiset().insert(x));
                assert(rest@.to_multiset() == rest0.to_multiset().remove(x));
                assert(rest0.to_multiset().count(x) > 0);
                assert(out0.to_multiset().add(rest0.to_multiset()) == v@.to_multiset());
            }
            assert forall|i2: int, j2: int|
                0 <= i2 < out@.len() && 0 <= j2 < rest@.len() implies result_le(
                #[trigger] out@[i2],
                #[trigger] rest@[j2],
            ) by {
                if i2 < out0.len() {
                } else {
                    assert(out@[i2] == x);
                }
            }
        }
    }
    proof {
        rest@.to_multiset_ensures();
        assert(rest@.to_multiset() =~= Multiset::<EndpointResult>::empty()) by {
            assert(rest@.to_multiset().len() == 0);
            vstd::multiset::lemma_multiset_empty_len(rest@.to_multiset());
        }
        assert(out@.to_multiset().add(Multiset::<EndpointResult>::empty()) =~= out@.to_multiset());
    }
    out
}

} // verus!
