//! Test-history records and their statistics: retention pruning, totals,
//! and the recent-first record list. The store that persists the records
//! hands the clock and the stored list in; everything here is pure.

use vstd::multiset::Multiset;
use vstd::prelude::*;

verus! {

/// Days a history record is retained.
pub const HISTORY_RETENTION_DAYS: i64 = 7;

/// One latency comparison taken during a test.
pub struct HistoryRecord {
    pub timestamp: i64,
    pub domain: String,
    pub original_latency: u64,
    pub optimized_latency: u64,
    pub speedup_percent: u64,
    pub applied: bool,
}

impl HistoryRecord {
    /// A field-for-field copy.
    pub fn duplicate(&self) -> (r: HistoryRecord)
        ensures
            r == *self,
    {
        HistoryRecord {
            timestamp: self.timestamp,
            domain: self.domain.clone(),
            original_latency: self.original_latency,
            optimized_latency: self.optimized_latency,
            speedup_percent: self.speedup_percent,
            applied: self.applied,
        }
    }
}

/// Summary of a span of history.
pub struct HistoryStats {
    pub total_tests: u32,
    pub total_speedup_ms: u64,
    pub avg_speedup_percent: u64,
    pub records: Vec<HistoryRecord>,
}

/// The records newer than the cutoff, in order.
pub open spec fn recent_spec(s: Seq<HistoryRecord>, cutoff: int) -> Seq<HistoryRecord>
    decreases s.len(),
{
    if s.len() == 0 {
        s
    } else {
        recent_spec(s.drop_last(), cutoff) + (if s.last().timestamp > cutoff {
            seq![s.last()]
        } else {
            Seq::<HistoryRecord>::empty()
        })
    }
}

/// The retention cutoff for a clock reading, saturating at the clock's
/// range.
pub open spec fn retention_cutoff(now: i64) -> int {
    crate::health::sat_sub_spec(now, (HISTORY_RETENTION_DAYS * 24 * 60 * 60) as i64)
}

/// Milliseconds saved by the applied, faster records.
pub open spec fn total_speedup_spec(s: Seq<HistoryRecord>) -> int
    decreases s.len(),
{
    if s.len() == 0 {
        0
    } else {
        total_speedup_spec(s.drop_last()) + ({
            let r = s.last();
            if r.applied && r.speedup_percent > 0 && r.original_latency > r.optimized_latency {
                r.original_latency - r.optimized_latency
            } else {
                0
            }
        })
    }
}

/// Sum and count of the positive speedup percentages.
pub open spec fn speedup_sum_spec(s: Seq<HistoryRecord>) -> int
    decreases s.len(),
{
    if s.len() == 0 {
        0
    } else {
        speedup_sum_spec(s.drop_last()) + (if s.last().speedup_percent > 0 {
            s.last().speedup_percent as int
        } else {
            0
        })
    }
}

/// How many records carry a positive speedup.
pub open spec fn speedup_count_spec(s: Seq<HistoryRecord>) -> int
    decreases s.len(),
{
    if s.len() == 0 {
        0
    } else {
        speedup_count_spec(s.drop_last()) + (if s.last().speedup_percent > 0 {
            1int
        } else {
            0int
        })
    }
}

/// Records in newest-first order.
pub open spec fn records_desc(s: Seq<HistoryRecord>) -> bool {
    forall|i: int, j: int|
        0 <= i < j < s.len() ==> (#[trigger] s[i]).timestamp >= (#[trigger] s[j]).timestamp
}

/// The in-memory history: the record list the persisted file holds.
pub struct HistoryManager {
    records: Vec<HistoryRecord>,
}

impl View for HistoryManager {
    type V = Seq<HistoryRecord>;

    closed spec fn view(&self) -> Seq<HistoryRecord> {
        self.records@
    }
}

/// Drops the records at or before the cutoff, in place; reports how many
/// were dropped.
fn prune(records: &mut Vec<HistoryRecord>, cutoff: i64) -> (removed: usize)
    ensures
        final(records)@ == recent_spec(old(records)@, cutoff as int),
        removed == old(records)@.len() - final(records)@.len(),
{
    let ghost src = records@;
    let mut out: Vec<HistoryRecord> = Vec::new();
    let n = records.len();
    let mut i: usize = 0;
    proof {
        assert(src.take(0) =~= Seq::<HistoryRecord>::empty());
    }
    while i < n
        invariant
            0 <= i <= n,
            records@ == src,
            n == src.len(),
            out@ == recent_spec(src.take(i as int), cutoff as int),
            out@.len() <= i,
        decreases n - i,
    {
        proof {
            assert(src.take(i as int + 1).drop_last() =~= src.take(i as int));
            assert(src.take(i as int + 1).last() == src[i as int]);
        }
        if records[i].timestamp > cutoff {
            let r = records[i].duplicate();
            proof {
                assert(r == src[i as int]);
            }
            out.push(r);
        }
        i = i + 1;
    }
    proof {
        assert(src.take(n as int) =~= src);
    }
    let kept = out.len();
    *records = out;
    n - kept
}

impl HistoryManager {
    /// An empty history.
    pub fn new() -> (r: HistoryManager)
        ensures
            r@ == Seq::<HistoryRecord>::empty(),
    {
        HistoryManager { records: Vec::new() }
    }

    /// A history over records loaded from the store.
    pub fn from_records(records: Vec<HistoryRecord>) -> (r: HistoryManager)
        ensures
            r@ == records@,
    {
        HistoryManager { records }
    }

    /// The records as stored, for persisting.
    pub fn records(&self) -> (r: &Vec<HistoryRecord>)
        ensures
            r@ == self@,
    {
        &self.records
    }

    /// Appends one record and prunes expired ones.
    pub fn add_record(&mut self, record: HistoryRecord, now: i64)
        ensures
            final(self)@ == recent_spec(old(self)@.push(record), retention_cutoff(now)),
    {
        self.records.push(record);
        let cutoff = crate::health::sat_sub(now, HISTORY_RETENTION_DAYS * 24 * 60 * 60);
        prune(&mut self.records, cutoff);
    }

    /// Appends a batch of records and prunes expired ones; an empty batch
    /// changes nothing.
    pub fn add_records(&mut self, new_records: Vec<HistoryRecord>, now: i64)
        ensures
            new_records@.len() == 0 ==> final(self)@ == old(self)@,
            new_records@.len() > 0 ==> final(self)@ == recent_spec(
                old(self)@ + new_records@,
                retention_cutoff(now),
            ),
    {
        if new_records.len() == 0 {
            return ;
        }
        let ghost base = self.records@;
        let mut incoming = new_records;
        let n = incoming.len();
        let mut i: usize = 0;
        while i < n
            invariant
                0 <= i <= n,
                n == incoming.len(),
                self.records@ == base + incoming@.take(i as int),
            decreases n - i,
        {
            proof {
                assert(incoming@.take(i as int + 1) =~= incoming@.take(i as int).push(
                    incoming@[i as int],
                ));
            }
            let r = incoming[i].duplicate();
            proof {
                assert(r == incoming@[i as int]);
            }
            self.records.push(r);
            proof {
                assert(self.records@ =~= base + incoming@.take(i as int + 1));
            }
            i = i + 1;
        }
        proof {
            assert(incoming@.take(n as int) =~= incoming@);
        }
        let cutoff = crate::health::sat_sub(now, HISTORY_RETENTION_DAYS * 24 * 60 * 60);
        prune(&mut self.records, cutoff);
    }

    /// Drops expired records; reports how many were dropped.
    pub fn clear_old(&mut self, now: i64) -> (removed: u32)
        ensures
            final(self)@ == recent_spec(old(self)@, retention_cutoff(now)),
            removed <= old(self)@.len(),
    {
        let cutoff = crate::health::sat_sub(now, HISTORY_RETENTION_DAYS * 24 * 60 * 60);
        let removed = prune(&mut self.records, cutoff);
        proof {
            lemma_recent_len(old(self)@, cutoff as int);
        }
        if removed > u32::MAX as usize {
            u32::MAX
        } else {
            removed as u32
        }
    }

    /// Drops every record.
    pub fn clear_all(&mut self)
        ensures
            final(self)@ == Seq::<HistoryRecord>::empty(),
    {
        self.records.clear();
    }
}

proof fn lemma_recent_len(s: Seq<HistoryRecord>, cutoff: int)
    ensures
        recent_spec(s, cutoff).len() <= s.len(),
    decreases s.len(),
{
    if s.len() > 0 {
        lemma_recent_len(s.drop_last(), cutoff);
    }
}

} // verus!

verus! {

/// Sorts records newest-first, preserving the collection.
fn sort_records_desc(v: Vec<HistoryRecord>) -> (r: Vec<HistoryRecord>)
    ensures
        records_desc(r@),
        r@.to_multiset() == v@.to_multiset(),
        r.len() == v.len(),
{
    broadcast use vstd::multiset::group_multiset_axioms;

    let mut rest = v;
    let mut out: Vec<HistoryRecord> = Vec::new();
    proof {
        out@.to_multiset_ensures();
        assert(out@.to_multiset() =~= Multiset::empty()) by {
            assert(out@.to_multiset().len() == 0);
            vstd::multiset::lemma_multiset_empty_len(out@.to_multiset());
        }
        assert(out@.to_multiset().add(rest@.to_multiset()) =~= rest@.to_multiset());
    }
    while rest.len() > 0
        invariant
            records_desc(out@),
            out@.to_multiset().add(rest@.to_multiset()) == v@.to_multiset(),
            out.len() + rest.len() == v.len(),
            forall|i: int, j: int|
                0 <= i < out@.len() && 0 <= j < rest@.len() ==> (#[trigger] out@[i]).timestamp
                    >= (#[trigger] rest@[j]).timestamp,
        decreases rest.len(),
    {
        let mut max_i: usize = 0;
        let mut i: usize = 1;
        while i < rest.len()
            invariant
                0 <= max_i < rest.len(),
                i <= rest.len(),
                forall|k: int|
                    0 <= k < i ==> rest@[max_i as int].timestamp >= (#[trigger] rest@[k]).timestamp,
            decreases rest.len() - i,
        {
            if rest[i].timestamp > rest[max_i].timestamp {
                max_i = i;
            }
            i = i + 1;
        }
        let ghost rest0 = rest@;
        let x = rest.remove(max_i);
        let ghost out0 = out@;
        out.push(x);
        proof {
            assert(rest0[max_i as int] == x);
            assert(rest0.contains(x));
            assert(rest@ == rest0.remove(max_i as int));
            assert(rest0.remove(max_i as int).to_multiset() =~= rest0.to_multiset().remove(x)) by {
                rest0.to_multiset_ensures();
            }
            assert(out@ == out0.push(x));
            assert(out0.push(x).to_multiset() =~= out0.to_multiset().insert(x)) by {
                out0.to_multiset_ensures();
            }
            assert(rest0.to_multiset().count(x) > 0) by {
                rest0.to_multiset_ensures();
            }
            assert(out@.to_multiset().add(rest@.to_multiset()) =~= v@.to_multiset()) by {
                assert(out@.to_multiset() == out0.to_multiset().insert(x));
                assert(rest@.to_multiset() == rest0.to_multiset().remove(x));
                assert(rest0.to_multiset().count(x) > 0);
                assert(out0.to_multiset().add(rest0.to_multiset()) == v@.to_multiset());
            }
            assert forall|i2: int, j2: int|
                0 <= i2 < out@.len() && 0 <= j2 < rest@.len() implies (
            #[trigger] out@[i2]).timestamp >= (#[trigger] rest@[j2]).timestamp by {
                if i2 < out0.len() {
                } else {
                    assert(out@[i2] == x);
                }
            }
        }
    }
    proof {
        rest@.to_multiset_ensures();
        assert(rest@.to_multiset() =~= Multiset::<HistoryRecord>::empty()) by {
            assert(rest@.to_multiset().len() == 0);
            vstd::multiset::lemma_multiset_empty_len(rest@.to_multiset());
        }
        assert(out@.to_multiset().add(Multiset::<HistoryRecord>::empty()) =~= out@.to_multiset());
    }
    out
}

impl HistoryManager {
    /// Statistics over the records of the last `hours` hours (all records
    /// when zero): the count, the milliseconds saved by applied speedups,
    /// the average positive speedup, and up to a hundred records newest
    /// first.
    pub fn get_stats(&self, hours: u32, now: i64) -> (r: HistoryStats)
        ensures
            ({
                let cutoff: int = if hours > 0 {
                    crate::health::sat_sub_spec(now, ((hours as i64) * 3600) as i64)
                } else {
                    0
                };
                let filtered = recent_spec(self@, cutoff);
                &&& r.total_tests == (if filtered.len() > u32::MAX {
                    u32::MAX as int
                } else {
                    filtered.len() as int
                })
                &&& r.total_speedup_ms == (if total_speedup_spec(filtered) > u64::MAX {
                    u64::MAX as int
                } else {
                    total_speedup_spec(filtered)
                })
                &&& (speedup_count_spec(filtered) > 0 && speedup_sum_spec(filtered) <= u64::MAX
                    ==> r.avg_speedup_percent == speedup_sum_spec(filtered) / speedup_count_spec(
                    filtered,
                ))
                &&& (speedup_count_spec(filtered) == 0 ==> r.avg_speedup_percent == 0)
                &&& records_desc(r.records@)
                &&& r.records@.len() <= 100
                &&& (exists|t: Seq<HistoryRecord>|
                    {
                        &&& records_desc(t)
                        &&& t.to_multiset() == filtered.to_multiset()
                        &&& r.records@ == t.take(
                            if t.len() <= 100 {
                                t.len() as int
                            } else {
                                100
                            },
                        )
                    })
            }),
    {
        let cutoff: i64 = if hours > 0 {
            crate::health::sat_sub(now, (hours as i64) * 3600)
        } else {
            0
        };
        let ghost gcut: int = if hours > 0 {
            crate::health::sat_sub_spec(now, ((hours as i64) * 3600) as i64)
        } else {
            0
        };
        let ghost filtered = recent_spec(self@, gcut);

        let n = self.records.len();
        let mut kept: Vec<HistoryRecord> = Vec::new();
        let mut total_speedup: u64 = 0;
        let mut speedup_sum: u64 = 0;
        let mut speedup_count: u64 = 0;
        let mut sum_saturated = false;
        let mut i: usize = 0;
        proof {
            assert(self@.take(0) =~= Seq::<HistoryRecord>::empty());
        }
        while i < n
            invariant
                0 <= i <= n,
                n == self@.len(),
                self@ == self.records@,
                gcut == cutoff as int,
                kept@ == recent_spec(self@.take(i as int), gcut),
                kept@.len() <= i,
                speedup_count <= i,
                !sum_saturated ==> total_speedup == total_speedup_spec(kept@),
                sum_saturated ==> (total_speedup == u64::MAX && total_speedup_spec(kept@)
                    > u64::MAX),
                speedup_sum <= u64::MAX,
                speedup_sum_spec(kept@) <= u64::MAX ==> speedup_sum == speedup_sum_spec(kept@),
                speedup_sum_spec(kept@) > u64::MAX ==> speedup_sum == u64::MAX,
                speedup_count == speedup_count_spec(kept@),
            decreases n - i,
        {
            proof {
                assert(self@.take(i as int + 1).drop_last() =~= self@.take(i as int));
                assert(self@.take(i as int + 1).last() == self@[i as int]);
            }
            if self.records[i].timestamp > cutoff {
                let r = self.records[i].duplicate();
                proof {
                    assert(r == self@[i as int]);
                    assert(kept@.push(self@[i as int]).drop_last() =~= kept@);
                }
                let ghost kept0 = kept@;
                if r.applied && r.speedup_percent > 0 && r.original_latency > r.optimized_latency {
                    let gain = r.original_latency - r.optimized_latency;
                    if total_speedup > u64::MAX - gain {
                        total_speedup = u64::MAX;
                        sum_saturated = true;
                    } else if !sum_saturated {
                        total_speedup = total_speedup + gain;
                    }
                }
                if r.speedup_percent > 0 {
                    speedup_count = speedup_count + 1;
                    if speedup_sum > u64::MAX - r.speedup_percent {
                        speedup_sum = u64::MAX;
                    } else {
                        speedup_sum = speedup_sum + r.speedup_percent;
                    }
                }
                kept.push(r);
                proof {
                    assert(kept@ =~= kept0.push(self@[i as int]));
                    assert(speedup_count_spec(kept@) == speedup_count_spec(kept0) + (if self@[
                        i as int].speedup_percent > 0 {
                        1int
                    } else {
                        0int
                    }));
                }
            }
            i = i + 1;
        }
        proof {
            assert(self@.take(n as int) =~= self@);
            assert(kept@ == filtered);
        }

        let total_tests: u32 = if kept.len() > u32::MAX as usize {
            u32::MAX
        } else {
            kept.len() as u32
        };
        let avg: u64 = if speedup_count > 0 {
            speedup_sum / speedup_count
        } else {
            0
        };
        proof {
            lemma_speedup_count_bound(kept@);
        }
        let sorted = sort_records_desc(kept);
        let mut records = sorted;
        if records.len() > 100 {
            records.truncate(100);
        }
        proof {
            if filtered.len() <= 100 {
                assert(records@ =~= records@.take(records@.len() as int));
            }
        }
        HistoryStats { total_tests, total_speedup_ms: total_speedup, avg_speedup_percent: avg, records }
    }
}

proof fn lemma_speedup_count_bound(s: Seq<HistoryRecord>)
    ensures
        0 <= speedup_count_spec(s) <= s.len(),
    decreases s.len(),
{
    if s.len() > 0 {
        lemma_speedup_count_bound(s.drop_last());
    }
}

} // verus!

verus! {

impl Default for HistoryStats {
    /// The statistics of an empty span.
    fn default() -> (r: HistoryStats)
        ensures
            r.total_tests == 0,
            r.total_speedup_ms == 0,
            r.avg_speedup_percent == 0,
            r.records@.len() == 0,
    {
        HistoryStats {
            total_tests: 0,
            total_speedup_ms: 0,
            avg_speedup_percent: 0,
            records: Vec::new(),
        }
    }
}

} // verus!
