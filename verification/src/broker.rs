//! The privilege broker's decision core: which mechanism to try for a hosts
//! mutation, in what order, and how a failed attempt demotes the cached
//! service flag. The broker only decides; the caller performs each attempt
//! and reports its outcome back.

use vstd::prelude::*;

verus! {

/// One way of reaching the hosts file.
pub enum Mechanism {
    /// The long-running privileged service, over its local channel.
    Service,
    /// The privileged one-shot helper child.
    Helper,
    /// The in-process hosts writer.
    Direct,
}

/// What the broker currently believes about the privileged mechanisms.
pub struct BrokerState {
    pub service_available: bool,
    pub helper_available: bool,
}

impl BrokerState {
    /// Initial beliefs, from one probe of each mechanism.
    pub fn new(service_available: bool, helper_available: bool) -> (r: BrokerState)
        ensures
            r.service_available == service_available,
            r.helper_available == helper_available,
    {
        BrokerState { service_available, helper_available }
    }

    /// The cached belief that the service answers.
    pub fn is_service_running(&self) -> (r: bool)
        ensures
            r == self.service_available,
    {
        self.service_available
    }

    /// Replaces the cached service belief with a fresh probe's answer.
    pub fn refresh_service_status(&mut self, probe: bool) -> (r: bool)
        ensures
            final(self).service_available == probe,
            final(self).helper_available == old(self).helper_available,
            r == probe,
    {
        self.service_available = probe;
        probe
    }

    /// Replaces the cached helper belief with a fresh probe's answer.
    pub fn refresh_helper_status(&mut self, probe: bool) -> (r: bool)
        ensures
            final(self).helper_available == probe,
            final(self).service_available == old(self).service_available,
            r == probe,
    {
        self.helper_available = probe;
        probe
    }

    /// Demotes the cached service belief after a failed service call.
    pub fn mark_service_unavailable(&mut self)
        ensures
            final(self).service_available == false,
            final(self).helper_available == old(self).helper_available,
    {
        self.service_available = false;
    }

    /// The attempts one mutation makes, in preference order: the service if
    /// believed running, then the helper if present, then always the direct
    /// path. The last attempt's failure is the one the caller reports.
    pub fn plan_attempts(&self) -> (r: Vec<Mechanism>)
        ensures
            r@ == (if self.service_available {
                seq![Mechanism::Service]
            } else {
                Seq::<Mechanism>::empty()
            }) + (if self.helper_available {
                seq![Mechanism::Helper]
            } else {
                Seq::<Mechanism>::empty()
            }) + seq![Mechanism::Direct],
            r.len() >= 1,
            r@.last() == Mechanism::Direct,
            self.service_available <==> r@[0] == Mechanism::Service,
    {
        let mut v: Vec<Mechanism> = Vec::new();
        if self.service_available {
            v.push(Mechanism::Service);
        }
        if self.helper_available {
            v.push(Mechanism::Helper);
        }
        v.push(Mechanism::Direct);
        proof {
            assert(v@ =~= (if self.service_available {
                seq![Mechanism::Service]
            } else {
                Seq::<Mechanism>::empty()
            }) + (if self.helper_available {
                seq![Mechanism::Helper]
            } else {
                Seq::<Mechanism>::empty()
            }) + seq![Mechanism::Direct]);
        }
        v
    }

    /// Records a failed attempt: a service failure clears the cached
    /// service belief for every later call; other failures change nothing.
    pub fn on_mechanism_failed(&mut self, m: Mechanism)
        ensures
            final(self).service_available == (old(self).service_available && !(m is Service)),
            final(self).helper_available == old(self).helper_available,
    {
        match m {
            Mechanism::Service => {
                self.service_available = false;
            },
            _ => {},
        }
    }
}

} // verus!
