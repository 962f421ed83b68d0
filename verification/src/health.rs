//! Health-check decision logic: sliding failure and degradation windows,
//! consecutive-failure counters, the silent-window rule that defers a first
//! switch, the cooldown between switches of one domain, and the switch
//! decision itself. Everything here is a pure function of state, observation
//! and clock, so the supervisor loop around it carries no policy of its own.

use crate::probe::Endpoint;
use crate::text::str_eq;
use vstd::prelude::*;

verus! {

/// Sliding failure window length.
pub const FAILURE_WINDOW_SIZE: usize = 10;

/// Failures within the window that contribute to a switch.
pub const FAILURE_WINDOW_THRESHOLD: usize = 7;

/// Sliding severe-degradation window length.
pub const SEVERE_WINDOW_SIZE: usize = 5;

/// Severe marks within the window that trigger a switch.
pub const SEVERE_WINDOW_THRESHOLD: usize = 3;

/// Seconds between two authorized switches of one domain.
pub const SWITCH_COOLDOWN_SECS: i64 = 1800;

/// Seconds the switch condition must hold before the first switch.
pub const SWITCH_SILENT_WINDOW_SECS: i64 = 120;

/// Absolute latency regression, in milliseconds, below which a slowdown is
/// never severe.
pub const SEVERE_ABS_THRESHOLD_MS: u64 = 300;

/// The supervisor never checks more often than this.
pub const MIN_CHECK_INTERVAL_SECS: u64 = 60;

/// The supervisor never treats less than a doubling as severe.
pub const MIN_SLOW_THRESHOLD_PERCENT: u32 = 100;

/// The supervisor never switches on fewer consecutive failures than this.
pub const MIN_FAILURE_THRESHOLD: u32 = 3;

/// Clamps configured knobs to the defensive floors.
pub fn sanitize_thresholds(check_interval: u64, slow_threshold: u32, failure_threshold: u32) -> (r:
    (u64, u32, u32))
    ensures
        r.0 == (if check_interval < MIN_CHECK_INTERVAL_SECS {
            MIN_CHECK_INTERVAL_SECS
        } else {
            check_interval
        }),
        r.1 == (if slow_threshold < MIN_SLOW_THRESHOLD_PERCENT {
            MIN_SLOW_THRESHOLD_PERCENT
        } else {
            slow_threshold
        }),
        r.2 == (if failure_threshold < MIN_FAILURE_THRESHOLD {
            MIN_FAILURE_THRESHOLD
        } else {
            failure_threshold
        }),
        r.0 >= MIN_CHECK_INTERVAL_SECS,
        r.1 >= MIN_SLOW_THRESHOLD_PERCENT,
        r.2 >= MIN_FAILURE_THRESHOLD,
{
    let ci = if check_interval < MIN_CHECK_INTERVAL_SECS {
        MIN_CHECK_INTERVAL_SECS
    } else {
        check_interval
    };
    let st = if slow_threshold < MIN_SLOW_THRESHOLD_PERCENT {
        MIN_SLOW_THRESHOLD_PERCENT
    } else {
        slow_threshold
    };
    let ft = if failure_threshold < MIN_FAILURE_THRESHOLD {
        MIN_FAILURE_THRESHOLD
    } else {
        failure_threshold
    };
    (ci, st, ft)
}

/// Saturating difference of two clock readings.
pub open spec fn sat_sub_spec(a: i64, b: i64) -> int {
    if a - b > i64::MAX {
        i64::MAX as int
    } else if a - b < i64::MIN {
        i64::MIN as int
    } else {
        a - b
    }
}

/// Executable saturating subtraction matching `sat_sub_spec`.
pub fn sat_sub(a: i64, b: i64) -> (r: i64)
    ensures
        r == sat_sub_spec(a, b),
{
    let wide = (a as i128) - (b as i128);
    if wide > i64::MAX as i128 {
        i64::MAX
    } else if wide < i64::MIN as i128 {
        i64::MIN
    } else {
        wide as i64
    }
}

/// Whether `now` still lies in the cooldown that began at `last_switch`.
pub open spec fn in_cooldown_spec(now: i64, last_switch: i64) -> bool {
    (now as int) - (last_switch as int) < SWITCH_COOLDOWN_SECS
}

/// Executable cooldown test matching `in_cooldown_spec`.
pub fn is_in_cooldown(now: i64, last_switch: i64) -> (r: bool)
    ensures
        r == in_cooldown_spec(now, last_switch),
{
    ((now as i128) - (last_switch as i128)) < (SWITCH_COOLDOWN_SECS as i128)
}

/// The map of domains whose switch condition is pending its silent window,
/// each with the time the condition was first seen.
pub struct PendingMap {
    entries: Vec<(String, i64)>,
}

/// The map value of an entry list: later entries shadow earlier ones.
pub open spec fn entries_map(s: Seq<(String, i64)>) -> Map<Seq<char>, i64>
    decreases s.len(),
{
    if s.len() == 0 {
        Map::empty()
    } else {
        entries_map(s.drop_last()).insert(s.last().0@, s.last().1)
    }
}

impl View for PendingMap {
    type V = Map<Seq<char>, i64>;

    closed spec fn view(&self) -> Map<Seq<char>, i64> {
        entries_map(self.entries@)
    }
}

proof fn lemma_entries_map_absent(s: Seq<(String, i64)>, d: Seq<char>)
    requires
        forall|i: int| 0 <= i < s.len() ==> (#[trigger] s[i].0)@ != d,
    ensures
        !entries_map(s).contains_key(d),
    decreases s.len(),
{
    if s.len() > 0 {
        let t = s.drop_last();
        assert(forall|i: int| 0 <= i < t.len() ==> t[i] == s[i]);
        lemma_entries_map_absent(t, d);
    }
}

proof fn lemma_entries_map_unique_at(s: Seq<(String, i64)>, i: int)
    requires
        0 <= i < s.len(),
        forall|j: int, k: int| 0 <= j < k < s.len() ==> (#[trigger] s[j].0)@ != (#[trigger] s[k].0)@,
    ensures
        entries_map(s).contains_key(s[i].0@),
        entries_map(s)[s[i].0@] == s[i].1,
    decreases s.len(),
{
    let t = s.drop_last();
    assert(forall|j: int| 0 <= j < t.len() ==> t[j] == s[j]);
    if i == s.len() - 1 {
    } else {
        lemma_entries_map_unique_at(t, i);
        assert(s.last().0@ != s[i].0@);
    }
}

proof fn lemma_entries_map_remove(s: Seq<(String, i64)>, i: int)
    requires
        0 <= i < s.len(),
        forall|j: int, k: int| 0 <= j < k < s.len() ==> (#[trigger] s[j].0)@ != (#[trigger] s[k].0)@,
    ensures
        entries_map(s.remove(i)) =~= entries_map(s).remove(s[i].0@),
    decreases s.len(),
{
    let t = s.drop_last();
    assert(forall|j: int| 0 <= j < t.len() ==> t[j] == s[j]);
    if i == s.len() - 1 {
        assert(s.remove(i) =~= t);
        lemma_entries_map_absent(t, s[i].0@);
        assert(entries_map(t) =~= entries_map(t).insert(s[i].0@, s[i].1).remove(s[i].0@));
    } else {
        lemma_entries_map_remove(t, i);
        assert(s.remove(i).drop_last() =~= t.remove(i));
        assert(s.remove(i).last() == s.last());
        assert(entries_map(s.remove(i)) == entries_map(t.remove(i)).insert(s.last().0@,
            s.last().1));
        assert(s.last().0@ != s[i].0@);
        assert(entries_map(t).remove(s[i].0@).insert(s.last().0@, s.last().1) =~= entries_map(
            t,
        ).insert(s.last().0@, s.last().1).remove(s[i].0@));
    }
}

impl PendingMap {
    /// Well-formed: keys are unique, so the first match is the map's value.
    /// Constructors establish this and every operation preserves it.
    pub closed spec fn wf(&self) -> bool {
        forall|j: int, k: int|
            0 <= j < k < self.entries@.len() ==> (#[trigger] self.entries@[j].0)@ != (
            #[trigger] self.entries@[k].0)@
    }

    /// An empty pending map.
    pub fn new() -> (r: PendingMap)
        ensures
            r@ == Map::<Seq<char>, i64>::empty(),
            r.wf(),
    {
        PendingMap { entries: Vec::new() }
    }

    /// The pending time of `domain`, if one is recorded.
    pub fn get(&self, domain: &str) -> (r: Option<i64>)
        requires
            self.wf(),
        ensures
            match r {
                Some(t) => self@.contains_key(domain@) && self@[domain@] == t,
                None => !self@.contains_key(domain@),
            },
    {
        let n = self.entries.len();
        let mut i: usize = 0;
        while i < n
            invariant
                0 <= i <= n,
                n == self.entries.len(),
                self.wf(),
                forall|j: int| 0 <= j < i ==> (#[trigger] self.entries@[j].0)@ != domain@,
            decreases n - i,
        {
            if str_eq(self.entries[i].0.as_str(), domain) {
                proof {
                    lemma_entries_map_unique_at(self.entries@, i as int);
                }
                return Some(self.entries[i].1);
            }
            i = i + 1;
        }
        proof {
            lemma_entries_map_absent(self.entries@, domain@);
        }
        None
    }

    /// Records the pending time of `domain`, replacing any earlier record.
    pub fn set(&mut self, domain: &str, t: i64)
        requires
            old(self).wf(),
        ensures
            final(self)@ == old(self)@.insert(domain@, t),
            final(self).wf(),
    {
        self.remove(domain);
        let ghost mid = self.entries@;
        proof {
            assert(!entries_map(mid).contains_key(domain@));
            assert forall|j: int| 0 <= j < mid.len() implies (#[trigger] mid[j].0)@ != domain@ by {
                if mid[j].0@ == domain@ {
                    lemma_entries_map_unique_at(mid, j);
                }
            }
        }
        self.entries.push((domain.to_owned(), t));
        proof {
            assert(self.entries@.drop_last() =~= mid);
            assert(entries_map(self.entries@) == entries_map(mid).insert(domain@, t));
            assert(entries_map(mid).insert(domain@, t) =~= old(self)@.insert(domain@, t));
            assert forall|j: int, k: int|
                0 <= j < k < self.entries@.len() implies (#[trigger] self.entries@[j].0)@ != (
            #[trigger] self.entries@[k].0)@ by {
                if k == self.entries@.len() - 1 {
                    assert(self.entries@[j] == mid[j]);
                }
            }
        }
    }

    /// Clears the pending time of `domain`.
    pub fn remove(&mut self, domain: &str)
        requires
            old(self).wf(),
        ensures
            final(self)@ == old(self)@.remove(domain@),
            final(self).wf(),
    {
        let n = self.entries.len();
        let mut i: usize = 0;
        while i < n
            invariant
                0 <= i <= n,
                n == self.entries.len(),
                self.wf(),
                self.entries@ == old(self).entries@,
                forall|j: int| 0 <= j < i ==> (#[trigger] self.entries@[j].0)@ != domain@,
            decreases n - i,
        {
            if str_eq(self.entries[i].0.as_str(), domain) {
                proof {
                    lemma_entries_map_remove(self.entries@, i as int);
                    assert(self.entries@[i as int].0@ == domain@);
                }
                self.entries.remove(i);
                proof {
                    assert forall|j: int, k: int|
                        0 <= j < k < self.entries@.len() implies (#[trigger] self.entries@[j].0)@
                        != (#[trigger] self.entries@[k].0)@ by {
                        let o = old(self).entries@.remove(i as int);
                        assert(self.entries@[j] == o[j] && self.entries@[k] == o[k]);
                        if j < i && k < i {
                            assert(o[j] == old(self).entries@[j] && o[k] == old(self).entries@[k]);
                        } else if j < i {
                            assert(o[k] == old(self).entries@[k + 1]);
                        } else {
                            assert(o[j] == old(self).entries@[j + 1] && o[k] == old(
                                self,
                            ).entries@[k + 1]);
                        }
                    }
                }
                return ;
            }
            i = i + 1;
        }
        proof {
            lemma_entries_map_absent(self.entries@, domain@);
            assert(entries_map(self.entries@) =~= entries_map(self.entries@).remove(domain@));
        }
    }
}

/// The silent-window rule. A switch is authorized only when the switch
/// condition has been continuously pending for the whole silent window and
/// the domain is not in cooldown; the first tick that sees the condition
/// only records the time, and a recovery clears the record.
pub fn should_switch_after_silent_window(
    domain: &str,
    now: i64,
    should_switch_condition: bool,
    in_cooldown: bool,
    pending_switch_since: &mut PendingMap,
) -> (r: bool)
    requires
        old(pending_switch_since).wf(),
    ensures
        final(pending_switch_since).wf(),
        !should_switch_condition ==> (!r && final(pending_switch_since)@ == old(
            pending_switch_since,
        )@.remove(domain@)),
        should_switch_condition ==> ({
            let since = if old(pending_switch_since)@.contains_key(domain@) {
                old(pending_switch_since)@[domain@]
            } else {
                now
            };
            &&& final(pending_switch_since)@ == old(pending_switch_since)@.insert(domain@, since)
            &&& r == (sat_sub_spec(now, since) >= SWITCH_SILENT_WINDOW_SECS && !in_cooldown)
        }),
{
    if !should_switch_condition {
        pending_switch_since.remove(domain);
        return false;
    }
    let since: i64 = match pending_switch_since.get(domain) {
        Some(t) => t,
        None => {
            pending_switch_since.set(domain, now);
            now
        },
    };
    proof {
        if old(pending_switch_since)@.contains_key(domain@) {
            assert(pending_switch_since@ =~= old(pending_switch_since)@.insert(domain@, since));
        }
    }
    let silent_elapsed = sat_sub(now, since);
    if silent_elapsed < SWITCH_SILENT_WINDOW_SECS {
        return false;
    }
    !in_cooldown
}

/// Cooldown respect: if a switch of a domain is recorded at `t1` and a
/// later authorization at `t2` finds the domain out of cooldown, then at
/// least the full cooldown has passed between the two switches.
pub proof fn lemma_cooldown_respect(t1: i64, t2: i64)
    requires
        !in_cooldown_spec(t2, t1),
    ensures
        (t2 as int) - (t1 as int) >= SWITCH_COOLDOWN_SECS,
{
}

/// Silent-window monotonicity: an authorization can only be granted when a
/// pending record at least the whole silent window old exists and the
/// cooldown has lapsed; in particular a condition first seen now is never
/// authorized now.
pub proof fn lemma_silent_window_defers(pending: Map<Seq<char>, i64>, d: Seq<char>, now: i64)
    requires
        !pending.contains_key(d) || pending[d] == now,
    ensures
        ({
            let since = if pending.contains_key(d) {
                pending[d]
            } else {
                now
            };
            !(sat_sub_spec(now, since) >= SWITCH_SILENT_WINDOW_SECS)
        }),
{
}

} // verus!

verus! {

/// A sliding window after one push: the new mark enters at the back and the
/// oldest falls out when the window is over capacity.
pub open spec fn push_window_spec(w: Seq<bool>, v: bool, cap: int) -> Seq<bool> {
    let w2 = w.push(v);
    if w2.len() > cap {
        w2.subrange(1, w2.len() as int)
    } else {
        w2
    }
}

/// How many marks in the window are set.
pub open spec fn count_true(w: Seq<bool>) -> int
    decreases w.len(),
{
    if w.len() == 0 {
        0
    } else {
        count_true(w.drop_last()) + if w.last() {
            1int
        } else {
            0int
        }
    }
}

/// Pushes a mark into a bounded window.
fn push_window(w: &mut Vec<bool>, v: bool, cap: usize)
    requires
        cap >= 1,
        old(w).len() <= cap,
    ensures
        final(w)@ == push_window_spec(old(w)@, v, cap as int),
        final(w).len() <= cap,
{
    w.push(v);
    if w.len() > cap {
        w.remove(0);
        proof {
            assert(w@ =~= old(w)@.push(v).subrange(1, old(w)@.push(v).len() as int));
        }
    }
}

/// Counts the set marks of a window.
fn count_true_exec(w: &Vec<bool>) -> (r: usize)
    ensures
        r == count_true(w@),
        r <= w.len(),
{
    let mut total: usize = 0;
    let mut i: usize = 0;
    proof {
        assert(w@.take(0) =~= Seq::<bool>::empty());
    }
    while i < w.len()
        invariant
            0 <= i <= w.len(),
            total == count_true(w@.take(i as int)),
            total <= i,
        decreases w.len() - i,
    {
        proof {
            assert(w@.take(i as int + 1).drop_last() =~= w@.take(i as int));
            assert(w@.take(i as int + 1).last() == w@[i as int]);
        }
        if w[i] {
            total = total + 1;
        }
        i = i + 1;
    }
    proof {
        assert(w@.take(w@.len() as int) =~= w@);
    }
    total
}

/// Severe degradation of the pinned address: the probe succeeded, a
/// baseline exists, and the latency regressed by at least the configured
/// percentage and by the absolute floor.
pub open spec fn severe_spec(success: bool, latency: u64, baseline: u64, slow_threshold: u32) -> bool {
    &&& success
    &&& baseline > 0
    &&& latency > 0
    &&& latency >= baseline
    &&& (latency - baseline) * 100 >= (slow_threshold as int) * (baseline as int)
    &&& latency - baseline >= SEVERE_ABS_THRESHOLD_MS
}

/// The per-domain counters the supervisor keeps between ticks.
pub struct DomainHealthState {
    pub consecutive_failures: u32,
    pub failure_window: Vec<bool>,
    pub severe_window: Vec<bool>,
    pub last_switch: i64,
    pub pending_since: Option<i64>,
}

/// A domain's counters before any check has run.
pub fn initial_domain_state() -> (r: DomainHealthState)
    ensures
        r.consecutive_failures == 0,
        r.failure_window@ == Seq::<bool>::empty(),
        r.severe_window@ == Seq::<bool>::empty(),
        r.last_switch == 0,
        r.pending_since is None,
{
    DomainHealthState {
        consecutive_failures: 0,
        failure_window: Vec::new(),
        severe_window: Vec::new(),
        last_switch: 0,
        pending_since: None,
    }
}

/// Whether the updated counters call for a switch, before hysteresis.
pub open spec fn switch_triggered_spec(
    consecutive_failures: u32,
    failure_count: int,
    severe_count: int,
    failure_threshold: u32,
) -> bool {
    ||| (consecutive_failures >= failure_threshold && failure_count
        >= FAILURE_WINDOW_THRESHOLD as int)
    ||| severe_count >= SEVERE_WINDOW_THRESHOLD as int
}

/// One classification step for one domain: updates the sliding windows and
/// the consecutive-failure counter from the current observation, applies
/// the trigger thresholds, and passes the trigger through the silent-window
/// and cooldown hysteresis. The step authorizes a switch only when the
/// trigger has been continuously pending for the whole silent window and
/// the cooldown since the domain's last switch has lapsed; a recovery
/// clears the pending record.
pub fn classify_tick(
    state: DomainHealthState,
    current_success: bool,
    current_latency: u64,
    baseline: u64,
    slow_threshold: u32,
    failure_threshold: u32,
    now: i64,
) -> (r: (DomainHealthState, bool))
    requires
        state.failure_window.len() <= FAILURE_WINDOW_SIZE,
        state.severe_window.len() <= SEVERE_WINDOW_SIZE,
    ensures
        ({
            let s2 = r.0;
            let authorized = r.1;
            let fails = push_window_spec(state.failure_window@, !current_success,
                FAILURE_WINDOW_SIZE as int);
            let severes = push_window_spec(state.severe_window@,
                severe_spec(current_success, current_latency, baseline, slow_threshold),
                SEVERE_WINDOW_SIZE as int);
            let cf: u32 = if !current_success {
                if state.consecutive_failures < u32::MAX {
                    (state.consecutive_failures + 1) as u32
                } else {
                    u32::MAX
                }
            } else {
                0
            };
            let triggered = switch_triggered_spec(cf, count_true(fails), count_true(severes),
                failure_threshold);
            &&& s2.failure_window@ == fails
            &&& s2.severe_window@ == severes
            &&& s2.failure_window.len() <= FAILURE_WINDOW_SIZE
            &&& s2.severe_window.len() <= SEVERE_WINDOW_SIZE
            &&& s2.consecutive_failures == cf
            &&& s2.last_switch == state.last_switch
            &&& (!triggered ==> (s2.pending_since is None && !authorized))
            &&& (triggered ==> ({
                let since = match state.pending_since {
                    Some(t) => t,
                    None => now,
                };
                &&& s2.pending_since == Some(since)
                &&& authorized == (sat_sub_spec(now, since) >= SWITCH_SILENT_WINDOW_SECS
                    && !in_cooldown_spec(now, state.last_switch))
            }))
        }),
{
    let DomainHealthState {
        consecutive_failures,
        mut failure_window,
        mut severe_window,
        last_switch,
        pending_since,
    } = state;

    let is_failure = !current_success;
    push_window(&mut failure_window, is_failure, FAILURE_WINDOW_SIZE);
    let severe = if current_success && baseline > 0 && current_latency > 0 && current_latency
        >= baseline {
        let diff = current_latency - baseline;
        proof {
            assert((slow_threshold as int) * (baseline as int)
                < 0x1_0000_0000_0000_0000_0000_0000) by (nonlinear_arith)
                requires
                    0 <= slow_threshold < 0x1_0000_0000,
                    0 <= baseline < 0x1_0000_0000_0000_0000,
            ;
        }
        ((diff as u128) * 100 >= (slow_threshold as u128) * (baseline as u128)) && diff
            >= SEVERE_ABS_THRESHOLD_MS
    } else {
        false
    };
    proof {
        assert(severe == severe_spec(current_success, current_latency, baseline, slow_threshold));
    }
    push_window(&mut severe_window, severe, SEVERE_WINDOW_SIZE);

    let cf: u32 = if is_failure {
        if consecutive_failures < u32::MAX {
            consecutive_failures + 1
        } else {
            u32::MAX
        }
    } else {
        0
    };

    let failure_count = count_true_exec(&failure_window);
    let severe_count = count_true_exec(&severe_window);
    let triggered = (cf >= failure_threshold && failure_count >= FAILURE_WINDOW_THRESHOLD)
        || severe_count >= SEVERE_WINDOW_THRESHOLD;

    if !triggered {
        let s2 = DomainHealthState {
            consecutive_failures: cf,
            failure_window,
            severe_window,
            last_switch,
            pending_since: None,
        };
        return (s2, false);
    }
    let since: i64 = match pending_since {
        Some(t) => t,
        None => now,
    };
    let authorized = sat_sub(now, since) >= SWITCH_SILENT_WINDOW_SECS && !is_in_cooldown(
        now,
        last_switch,
    );
    let s2 = DomainHealthState {
        consecutive_failures: cf,
        failure_window,
        severe_window,
        last_switch,
        pending_since: Some(since),
    };
    (s2, authorized)
}

/// Records an executed switch: the cooldown restarts now, the pending
/// record clears, and the consecutive-failure counter resets.
pub fn record_switch(state: DomainHealthState, now: i64) -> (r: DomainHealthState)
    ensures
        r.last_switch == now,
        r.pending_since is None,
        r.consecutive_failures == 0,
        r.failure_window@ == state.failure_window@,
        r.severe_window@ == state.severe_window@,
{
    DomainHealthState { consecutive_failures: 0, last_switch: now, pending_since: None, ..state }
}

/// What to do once the full test found a best candidate for a pinned
/// domain.
pub enum SwitchDecision {
    /// The best candidate is the pinned address already.
    KeepCurrent,
    /// The pinned address still works and the candidate is not meaningfully
    /// better.
    NotWorthSwitching,
    /// Re-pin to the candidate.
    Switch,
}

/// The switch decision: an unchanged address is kept; a working address is
/// abandoned only for a meaningful improvement — more than a fifth faster
/// and more than fifty milliseconds faster; a dead address is always
/// replaced by a working candidate.
pub fn decide_switch(
    current_ip: &String,
    current_works: bool,
    current_latency: u64,
    best_ip: &String,
    best_latency: u64,
) -> (r: SwitchDecision)
    ensures
        current_ip@ == best_ip@ ==> r is KeepCurrent,
        current_ip@ != best_ip@ && !current_works ==> r is Switch,
        current_ip@ != best_ip@ && current_works ==> (if current_latency > best_latency && (
        current_latency - best_latency) * 100 > 20 * (current_latency as int) && current_latency
            - best_latency > 50 {
            r is Switch
        } else {
            r is NotWorthSwitching
        }),
{
    if str_eq(current_ip.as_str(), best_ip.as_str()) {
        return SwitchDecision::KeepCurrent;
    }
    if !current_works {
        return SwitchDecision::Switch;
    }
    if current_latency > best_latency && ((current_latency - best_latency) as u128) * 100 > 20 * (
    current_latency as u128) && current_latency - best_latency > 50 {
        SwitchDecision::Switch
    } else {
        SwitchDecision::NotWorthSwitching
    }
}

/// Whether some endpoint of the prefix already carries the domain.
pub open spec fn has_domain(s: Seq<Endpoint>, d: Seq<char>) -> bool {
    exists|i: int| 0 <= i < s.len() && (#[trigger] s[i]).domain@ == d
}

/// The endpoints with a first-occurrence-only domain, in order.
pub open spec fn dedup_endpoints_spec(s: Seq<Endpoint>) -> Seq<Endpoint>
    decreases s.len(),
{
    if s.len() == 0 {
        Seq::empty()
    } else {
        let p = dedup_endpoints_spec(s.drop_last());
        if has_domain(p, s.last().domain@) {
            p
        } else {
            p.push(s.last())
        }
    }
}

/// Drops endpoints whose domain already appeared earlier in the list,
/// keeping the first of each domain.
pub fn dedupe_endpoints_by_domain(endpoints: Vec<Endpoint>) -> (r: Vec<Endpoint>)
    ensures
        r@ == dedup_endpoints_spec(endpoints@),
        forall|i: int, j: int|
            0 <= i < j < r@.len() ==> (#[trigger] r@[i]).domain@ != (#[trigger] r@[j]).domain@,
{
    let ghost src = endpoints@;
    let mut rest = endpoints;
    let mut out: Vec<Endpoint> = Vec::new();
    let n = rest.len();
    let mut k: usize = 0;
    proof {
        assert(src.take(0) =~= Seq::<Endpoint>::empty());
    }
    while k < n
        invariant
            0 <= k <= n,
            rest@ == src,
            n == src.len(),
            k <= rest.len(),
            out@ == dedup_endpoints_spec(src.take(k as int)),
            forall|i: int, j: int|
                0 <= i < j < out@.len() ==> (#[trigger] out@[i]).domain@ != (
                #[trigger] out@[j]).domain@,
        decreases n - k,
    {
        proof {
            assert(src.take(k as int + 1).drop_last() =~= src.take(k as int));
            assert(src.take(k as int + 1).last() == src[k as int]);
        }
        let ghost p = out@;
        let mut dup = false;
        let mut j: usize = 0;
        while j < out.len()
            invariant
                0 <= j <= out.len(),
                out@ == p,
                rest@ == src,
                k < src.len(),
                dup ==> has_domain(p, src[k as int].domain@),
                !dup ==> forall|w: int| 0 <= w < j ==> (#[trigger] p[w]).domain@ != src[
                    k as int].domain@,
            decreases out.len() - j,
        {
            if str_eq(out[j].domain.as_str(), rest[k].domain.as_str()) {
                dup = true;
                proof {
                    assert(p[j as int].domain@ == src[k as int].domain@);
                }
                j = out.len();
            } else {
                j = j + 1;
            }
        }
        if !dup {
            proof {
                assert(!has_domain(p, src[k as int].domain@)) by {
                    if has_domain(p, src[k as int].domain@) {
                        let w = choose|w: int|
                            0 <= w < p.len() && p[w].domain@ == src[k as int].domain@;
                    }
                }
            }
            let ep = rest[k].duplicate();
            proof {
                assert(ep == src[k as int]);
            }
            out.push(ep);
            proof {
                assert(out@ =~= p.push(src[k as int]));
                assert(dedup_endpoints_spec(src.take(k as int + 1)) == p.push(src[k as int]));
            }
        } else {
            proof {
                assert(dedup_endpoints_spec(src.take(k as int + 1)) == p);
            }
        }
        k = k + 1;
    }
    proof {
        assert(src.take(n as int) =~= src);
    }
    out
}

} // verus!

verus! {

/// The baseline-latency map: for each domain, the last successful latency
/// the comparison point for degradation classification.
pub struct BaselineMap {
    entries: Vec<(String, u64)>,
}

/// The map value of a baseline entry list: later entries shadow earlier
/// ones.
pub open spec fn baseline_entries_map(s: Seq<(String, u64)>) -> Map<Seq<char>, u64>
    decreases s.len(),
{
    if s.len() == 0 {
        Map::empty()
    } else {
        baseline_entries_map(s.drop_last()).insert(s.last().0@, s.last().1)
    }
}

impl View for BaselineMap {
    type V = Map<Seq<char>, u64>;

    closed spec fn view(&self) -> Map<Seq<char>, u64> {
        baseline_entries_map(self.entries@)
    }
}

proof fn lemma_baseline_map_absent(s: Seq<(String, u64)>, d: Seq<char>)
    requires
        forall|i: int| 0 <= i < s.len() ==> (#[trigger] s[i].0)@ != d,
    ensures
        !baseline_entries_map(s).contains_key(d),
    decreases s.len(),
{
    if s.len() > 0 {
        let t = s.drop_last();
        assert(forall|i: int| 0 <= i < t.len() ==> t[i] == s[i]);
        lemma_baseline_map_absent(t, d);
    }
}

proof fn lemma_baseline_map_unique_at(s: Seq<(String, u64)>, i: int)
    requires
        0 <= i < s.len(),
        forall|j: int, k: int| 0 <= j < k < s.len() ==> (#[trigger] s[j].0)@ != (#[trigger] s[k].0)@,
    ensures
        baseline_entries_map(s).contains_key(s[i].0@),
        baseline_entries_map(s)[s[i].0@] == s[i].1,
    decreases s.len(),
{
    let t = s.drop_last();
    assert(forall|j: int| 0 <= j < t.len() ==> t[j] == s[j]);
    if i == s.len() - 1 {
    } else {
        lemma_baseline_map_unique_at(t, i);
        assert(s.last().0@ != s[i].0@);
    }
}

impl BaselineMap {
    /// Well-formed: keys are unique, so the first match is the map's value.
    pub closed spec fn wf(&self) -> bool {
        forall|j: int, k: int|
            0 <= j < k < self.entries@.len() ==> (#[trigger] self.entries@[j].0)@ != (
            #[trigger] self.entries@[k].0)@
    }

    /// An empty baseline map.
    pub fn new() -> (r: BaselineMap)
        ensures
            r@ == Map::<Seq<char>, u64>::empty(),
            r.wf(),
    {
        BaselineMap { entries: Vec::new() }
    }

    /// The baseline of `domain`, if one was recorded.
    pub fn get(&self, domain: &str) -> (r: Option<u64>)
        requires
            self.wf(),
        ensures
            match r {
                Some(t) => self@.contains_key(domain@) && self@[domain@] == t,
                None => !self@.contains_key(domain@),
            },
    {
        let n = self.entries.len();
        let mut i: usize = 0;
        while i < n
            invariant
                0 <= i <= n,
                n == self.entries.len(),
                self.wf(),
                forall|j: int| 0 <= j < i ==> (#[trigger] self.entries@[j].0)@ != domain@,
            decreases n - i,
        {
            if str_eq(self.entries[i].0.as_str(), domain) {
                proof {
                    lemma_baseline_map_unique_at(self.entries@, i as int);
                }
                return Some(self.entries[i].1);
            }
            i = i + 1;
        }
        proof {
            lemma_baseline_map_absent(self.entries@, domain@);
        }
        None
    }

    /// Records a measured baseline, replacing any earlier one.
    pub fn set(&mut self, domain: &str, latency: u64)
        requires
            old(self).wf(),
        ensures
            final(self)@ == old(self)@.insert(domain@, latency),
            final(self).wf(),
    {
        self.remove(domain);
        let ghost mid = self.entries@;
        proof {
            assert(!baseline_entries_map(mid).contains_key(domain@));
            assert forall|j: int| 0 <= j < mid.len() implies (#[trigger] mid[j].0)@ != domain@ by {
                if mid[j].0@ == domain@ {
                    lemma_baseline_map_unique_at(mid, j);
                }
            }
        }
        self.entries.push((domain.to_owned(), latency));
        proof {
            assert(self.entries@.drop_last() =~= mid);
            assert(baseline_entries_map(self.entries@) == baseline_entries_map(mid).insert(
                domain@,
                latency,
            ));
            assert(baseline_entries_map(mid).insert(domain@, latency) =~= old(self)@.insert(
                domain@,
                latency,
            ));
            assert forall|j: int, k: int|
                0 <= j < k < self.entries@.len() implies (#[trigger] self.entries@[j].0)@ != (
            #[trigger] self.entries@[k].0)@ by {
                if k == self.entries@.len() - 1 {
                    assert(self.entries@[j] == mid[j]);
                }
            }
        }
    }

    /// Forgets the baseline of `domain`.
    pub fn remove(&mut self, domain: &str)
        requires
            old(self).wf(),
        ensures
            final(self)@ == old(self)@.remove(domain@),
            final(self).wf(),
    {
        let n = self.entries.len();
        let mut i: usize = 0;
        while i < n
            invariant
                0 <= i <= n,
                n == self.entries.len(),
                self.wf(),
                self.entries@ == old(self).entries@,
                forall|j: int| 0 <= j < i ==> (#[trigger] self.entries@[j].0)@ != domain@,
            decreases n - i,
        {
            if str_eq(self.entries[i].0.as_str(), domain) {
                proof {
                    lemma_baseline_map_remove(self.entries@, i as int);
                    assert(self.entries@[i as int].0@ == domain@);
                }
                self.entries.remove(i);
                proof {
                    assert forall|j: int, k: int|
                        0 <= j < k < self.entries@.len() implies (#[trigger] self.entries@[j].0)@
                        != (#[trigger] self.entries@[k].0)@ by {
                        let o = old(self).entries@.remove(i as int);
                        assert(self.entries@[j] == o[j] && self.entries@[k] == o[k]);
                        if j < i && k < i {
                            assert(o[j] == old(self).entries@[j] && o[k] == old(self).entries@[k]);
                        } else if j < i {
                            assert(o[k] == old(self).entries@[k + 1]);
                        } else {
                            assert(o[j] == old(self).entries@[j + 1] && o[k] == old(
                                self,
                            ).entries@[k + 1]);
                        }
                    }
                }
                return ;
            }
            i = i + 1;
        }
        proof {
            lemma_baseline_map_absent(self.entries@, domain@);
            assert(baseline_entries_map(self.entries@) =~= baseline_entries_map(
                self.entries@,
            ).remove(domain@));
        }
    }
}

proof fn lemma_baseline_map_remove(s: Seq<(String, u64)>, i: int)
    requires
        0 <= i < s.len(),
        forall|j: int, k: int| 0 <= j < k < s.len() ==> (#[trigger] s[j].0)@ != (#[trigger] s[k].0)@,
    ensures
        baseline_entries_map(s.remove(i)) =~= baseline_entries_map(s).remove(s[i].0@),
    decreases s.len(),
{
    let t = s.drop_last();
    assert(forall|j: int| 0 <= j < t.len() ==> t[j] == s[j]);
    if i == s.len() - 1 {
        assert(s.remove(i) =~= t);
        lemma_baseline_map_absent(t, s[i].0@);
        assert(baseline_entries_map(t) =~= baseline_entries_map(t).insert(s[i].0@,
            s[i].1).remove(s[i].0@));
    } else {
        lemma_baseline_map_remove(t, i);
        assert(s.remove(i).drop_last() =~= t.remove(i));
        assert(s.remove(i).last() == s.last());
        assert(baseline_entries_map(s.remove(i)) == baseline_entries_map(t.remove(i)).insert(
            s.last().0@,
            s.last().1,
        ));
        assert(s.last().0@ != s[i].0@);
        assert(baseline_entries_map(t).remove(s[i].0@).insert(s.last().0@, s.last().1)
            =~= baseline_entries_map(t).insert(s.last().0@, s.last().1).remove(s[i].0@));
    }
}

} // verus!
