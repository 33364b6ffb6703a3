use vstd::prelude::*;

verus! {

/// Where the server stands between start and exit.
#[derive(Clone, Copy, Debug, PartialEq, Eq, Structural)]
pub enum Phase {
    /// Accepting connections.
    Running,
    /// A termination signal came: no new connection, in-flight requests go on.
    Draining,
    /// Every in-flight request has finished after the signal.
    Stopped,
}

/// Whether a connection is taken in phase `p` with `active` requests in flight.
pub open spec fn accepts(p: Phase, active: nat) -> bool {
    p == Phase::Running && active < u64::MAX
}

/// The phase after a termination signal.
pub open spec fn after_signal(p: Phase, active: nat) -> Phase {
    if p == Phase::Running {
        if active == 0 {
            Phase::Stopped
        } else {
            Phase::Draining
        }
    } else {
        p
    }
}

/// The phase after one of `active` requests in flight finishes.
pub open spec fn after_finish(p: Phase, active: nat) -> Phase {
    if p == Phase::Draining && active == 1 {
        Phase::Stopped
    } else {
        p
    }
}

/// Once a termination signal has come, no connection is taken again, whatever
/// requests then finish or are refused; and the server stops exactly when the last
/// request in flight has finished.
pub proof fn law_signal_closes(p: Phase, active: nat, finished: nat)
    requires
        finished <= active,
    ensures
        !accepts(after_signal(p, active), (active - finished) as nat),
        after_signal(p, active) != Phase::Running,
        after_finish(after_signal(p, active), 1) != Phase::Running,
        p == Phase::Running && active > 0 ==> after_finish(after_signal(p, active), 1)
            == Phase::Stopped && after_finish(after_signal(p, active), 2) == Phase::Draining,
{
}

/// The shutdown coordinator: the phase and the number of requests in flight.
pub struct Lifecycle {
    phase: Phase,
    in_flight: u64,
}

impl Lifecycle {
    pub closed spec fn phase_of(&self) -> Phase {
        self.phase
    }

    pub closed spec fn active(&self) -> nat {
        self.in_flight as nat
    }

    /// Stopped only with nothing in flight.
    pub open spec fn wf(&self) -> bool {
        self.phase_of() == Phase::Stopped ==> self.active() == 0
    }

    /// A running server with nothing in flight.
    pub fn new() -> (r: Lifecycle)
        ensures
            r.wf(),
            r.phase_of() == Phase::Running,
            r.active() == 0,
    {
        Lifecycle { phase: Phase::Running, in_flight: 0 }
    }

    pub fn phase(&self) -> (r: Phase)
        ensures
            r == self.phase_of(),
    {
        self.phase
    }

    pub fn in_flight(&self) -> (r: u64)
        ensures
            r == self.active(),
    {
        self.in_flight
    }

    /// Admits a new connection: only while running (and while the count has room).
    pub fn try_accept(&mut self) -> (accepted: bool)
        requires
            old(self).wf(),
        ensures
            final(self).wf(),
            accepted == accepts(old(self).phase_of(), old(self).active()),
            final(self).phase_of() == old(self).phase_of(),
            final(self).active() == old(self).active() + (if accepted { 1nat } else { 0nat }),
    {
        if self.phase == Phase::Running && self.in_flight < u64::MAX {
            self.in_flight = self.in_flight + 1;
            true
        } else {
            false
        }
    }

    /// A request in flight has completed; the last one to finish while draining
    /// stops the server.
    pub fn finish(&mut self)
        requires
            old(self).wf(),
            old(self).active() > 0,
        ensures
            final(self).wf(),
            final(self).active() == old(self).active() - 1,
            final(self).phase_of() == after_finish(old(self).phase_of(), old(self).active()),
    {
        self.in_flight = self.in_flight - 1;
        if self.phase == Phase::Draining && self.in_flight == 0 {
            self.phase = Phase::Stopped;
        }
    }

    /// A termination signal: a running server starts draining, and stops at once
    /// when nothing is in flight; later signals change nothing.
    pub fn signal(&mut self)
        requires
            old(self).wf(),
        ensures
            final(self).wf(),
            final(self).active() == old(self).active(),
            final(self).phase_of() == after_signal(old(self).phase_of(), old(self).active()),
    {
        if self.phase == Phase::Running {
            if self.in_flight == 0 {
                self.phase = Phase::Stopped;
            } else {
                self.phase = Phase::Draining;
            }
        }
    }
}

} // verus!
