//! The apply step shared by the one-shot workflow and the apply-all
//! command: from a finished result set, the bindings to write, the history
//! records to append, and the counts the caller reports.

use crate::hosts::{binds_view, BindingModel, HostsBinding};
use crate::history::HistoryRecord;
use crate::probe::EndpointResult;
use vstd::prelude::*;

verus! {

/// What one workflow run reports.
pub struct WorkflowResult {
    pub test_count: u32,
    pub success_count: u32,
    pub applied_count: u32,
    pub kept_count: u32,
    pub results: Vec<EndpointResult>,
}

/// The bindings a result set asks to write: one per successful result, the
/// chosen address under the endpoint's domain, in result order.
pub open spec fn plan_binds_spec(rs: Seq<EndpointResult>) -> Seq<BindingModel>
    decreases rs.len(),
{
    if rs.len() == 0 {
        Seq::empty()
    } else {
        plan_binds_spec(rs.drop_last()) + (if rs.last().success {
            seq![
                BindingModel { domain: rs.last().endpoint.domain@, ip: rs.last().ip@ },
            ]
        } else {
            Seq::<BindingModel>::empty()
        })
    }
}

/// How many results succeeded.
pub open spec fn success_count_spec(rs: Seq<EndpointResult>) -> int
    decreases rs.len(),
{
    if rs.len() == 0 {
        0
    } else {
        success_count_spec(rs.drop_last()) + (if rs.last().success {
            1int
        } else {
            0int
        })
    }
}

/// What the apply step hands on: the batch to write, the history to append,
/// and the success count.
pub struct ApplyPlan {
    pub bindings: Vec<HostsBinding>,
    pub records: Vec<HistoryRecord>,
    pub success_count: u32,
}

/// Collects the apply plan of a result set: every successful result
/// contributes its chosen binding and one applied history record stamped
/// `now`.
pub fn collect_apply_plan(results: &Vec<EndpointResult>, now: i64) -> (r: ApplyPlan)
    ensures
        binds_view(r.bindings@) == plan_binds_spec(results@),
        r.success_count == (if success_count_spec(results@) > u32::MAX {
            u32::MAX as int
        } else {
            success_count_spec(results@)
        }),
        r.records@.len() == r.bindings@.len(),
        forall|k: int|
            0 <= k < r.records@.len() ==> ((#[trigger] r.records@[k]).applied
                && r.records@[k].timestamp == now),
{
    let ghost rs = results@;
    let mut bindings: Vec<HostsBinding> = Vec::new();
    let mut records: Vec<HistoryRecord> = Vec::new();
    let mut success_count: u32 = 0;
    let n = results.len();
    let mut i: usize = 0;
    proof {
        assert(rs.take(0) =~= Seq::<EndpointResult>::empty());
        assert(binds_view(bindings@) =~= plan_binds_spec(rs.take(0)));
    }
    while i < n
        invariant
            0 <= i <= n,
            n == results.len(),
            rs == results@,
            binds_view(bindings@) == plan_binds_spec(rs.take(i as int)),
            success_count_spec(rs.take(i as int)) > u32::MAX ==> success_count == u32::MAX,
            success_count_spec(rs.take(i as int)) <= u32::MAX ==> success_count
                == success_count_spec(rs.take(i as int)),
            records@.len() == bindings@.len(),
            forall|k: int|
                0 <= k < records@.len() ==> ((#[trigger] records@[k]).applied
                    && records@[k].timestamp == now),
        decreases n - i,
    {
        proof {
            assert(rs.take(i as int + 1).drop_last() =~= rs.take(i as int));
            assert(rs.take(i as int + 1).last() == rs[i as int]);
        }
        if results[i].success {
            if success_count < u32::MAX {
                success_count = success_count + 1;
            }
            let ghost b0 = bindings@;
            bindings.push(
                HostsBinding {
                    domain: results[i].endpoint.domain.clone(),
                    ip: results[i].ip.clone(),
                },
            );
            records.push(
                HistoryRecord {
                    timestamp: now,
                    domain: results[i].endpoint.domain.clone(),
                    original_latency: results[i].original_latency,
                    optimized_latency: results[i].latency,
                    speedup_percent: results[i].speedup_percent,
                    applied: true,
                },
            );
            proof {
                assert(binds_view(bindings@) =~= binds_view(b0).push(
                    BindingModel { domain: rs[i as int].endpoint.domain@, ip: rs[i as int].ip@ },
                ));
                assert(binds_view(bindings@) =~= plan_binds_spec(rs.take(i as int + 1)));
            }
        }
        i = i + 1;
    }
    proof {
        assert(rs.take(n as int) =~= rs);
    }
    ApplyPlan { bindings, records, success_count }
}

} // verus!
