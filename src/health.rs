use vstd::prelude::*;

use crate::handler::STATUS_OK;
use crate::routing::{marked_available, marked_unavailable, RoutingTable};

verus! {

/// What one health probe of an upstream produced.
#[derive(Clone, Copy, Debug, PartialEq, Eq, Structural)]
pub enum ProbeOutcome {
    ConnectFailed,
    SendFailed,
    ReadFailed,
    /// A response arrived with this status.
    Status(u16),
}

/// Only a 200 response counts as healthy.
pub open spec fn probe_passed(o: ProbeOutcome) -> bool {
    o == ProbeOutcome::Status(STATUS_OK)
}

pub fn is_healthy(o: ProbeOutcome) -> (r: bool)
    ensures
        r == probe_passed(o),
{
    match o {
        ProbeOutcome::Status(s) => s == STATUS_OK,
        _ => false,
    }
}

impl RoutingTable {
    /// Applies one probe result to upstream `i`: healthy marks it available (putting it back
    /// in rotation on a false-to-true edge), anything else marks it unavailable. Returns
    /// whether it came back into rotation.
    pub fn apply_probe(&mut self, i: usize, o: ProbeOutcome) -> (r: bool)
        requires
            old(self).wf(),
            i < old(self)@.available.len(),
        ensures
            final(self).wf(),
            final(self).address_seq() == old(self).address_seq(),
            final(self)@ == if probe_passed(o) {
                marked_available(old(self)@, i as int)
            } else {
                marked_unavailable(old(self)@, i as int)
            },
            r == (probe_passed(o) && !old(self)@.available[i as int]),
    {
        if is_healthy(o) {
            self.mark_available(i)
        } else {
            self.mark_unavailable(i);
            false
        }
    }
}

/// Ticks of the probe timer; the first one only ends the start-up grace period.
pub struct ProbeTimer {
    started: bool,
}

impl ProbeTimer {
    pub closed spec fn started_spec(&self) -> bool {
        self.started
    }

    pub fn new() -> (r: ProbeTimer)
        ensures
            !r.started_spec(),
    {
        ProbeTimer { started: false }
    }

    /// Records a tick; returns whether a probe round is due on it.
    pub fn on_tick(&mut self) -> (r: bool)
        ensures
            r == old(self).started_spec(),
            final(self).started_spec(),
    {
        let due = self.started;
        self.started = true;
        due
    }
}

} // verus!
