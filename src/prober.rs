use vstd::prelude::*;
use crate::error::ApiError;
use crate::website::Website;

verus! {

/// What the prober is waiting for.
#[derive(Clone, Copy, Debug, PartialEq, Eq, Structural)]
pub enum ProbePhase {
    /// The next tick of the probing interval.
    Idle,
    /// The answer to the request sent to the current site.
    AwaitingResponse,
    /// The storage of the current site's result.
    AwaitingStore,
    /// Nothing: a failure stopped the probing for good.
    Halted,
}

/// What happened since the last action.
#[derive(Debug)]
pub enum ProbeEvent {
    /// The interval ticked; the registered sites at that moment.
    Tick(Vec<Website>),
    /// The current site answered with this status code.
    Response(i16),
    /// The request to the current site failed.
    ProbeFailed(String),
    /// The current site's result was stored.
    Stored,
    /// Storing the current site's result failed.
    StoreFailed(String),
}

/// What to do next.
#[derive(Debug, PartialEq, Eq)]
pub enum ProbeAction {
    /// Wait for the next tick, then report the registered sites.
    WaitForTick,
    /// Send one GET request to this URL.
    Get(String),
    /// Store one result for the site with this alias.
    InsertLog { alias: String, status: i16 },
    /// Stop probing for good, with this failure.
    Halt(ApiError),
    /// The event did not fit the current phase, or probing has stopped: it was dropped.
    Ignore,
}

/// The decisions of the probing loop: every tick, each registered site in
/// turn gets one request and, when it answers, one stored result. Any failed
/// request or failed store stops the loop for all sites.
pub struct Prober {
    /// The snapshot of sites taken at the last tick.
    pub sites: Vec<Website>,
    /// The index of the site being probed.
    pub next: usize,
    pub phase: ProbePhase,
}

impl Prober {
    /// While a site is being probed or stored, it is one of the snapshot's sites.
    pub open spec fn wf(&self) -> bool {
        (self.phase == ProbePhase::AwaitingResponse || self.phase == ProbePhase::AwaitingStore)
            ==> self.next < self.sites@.len()
    }

    /// A prober that waits for its first tick: nothing is probed at start.
    pub fn new() -> (r: Prober)
        ensures
            r.wf(),
            r.phase == ProbePhase::Idle,
            r.sites@.len() == 0,
    {
        Prober { sites: Vec::new(), next: 0, phase: ProbePhase::Idle }
    }

    pub fn phase(&self) -> (r: ProbePhase)
        ensures
            r == self.phase,
    {
        self.phase
    }

    /// The request for the site at `next`, or the wait for the next tick when
    /// every site of the snapshot was probed.
    fn probe_from(&mut self, next: usize) -> (r: ProbeAction)
        ensures
            next < old(self).sites@.len() ==> final(self).phase == ProbePhase::AwaitingResponse
                && r == ProbeAction::Get(old(self).sites@[next as int].url),
            next >= old(self).sites@.len() ==> final(self).phase == ProbePhase::Idle && r == ProbeAction::WaitForTick,
            final(self).sites@ == old(self).sites@,
            final(self).next == next,
            final(self).wf(),
    {
        self.next = next;
        if next < self.sites.len() {
            self.phase = ProbePhase::AwaitingResponse;
            ProbeAction::Get(self.sites[next].url.clone())
        } else {
            self.phase = ProbePhase::Idle;
            ProbeAction::WaitForTick
        }
    }

    /// Takes one event and returns the action that follows it.
    pub fn step(&mut self, event: ProbeEvent) -> (r: ProbeAction)
        requires
            old(self).wf(),
        ensures
            final(self).wf(),
            old(self).phase == ProbePhase::Halted ==> r == ProbeAction::Ignore && *final(self) == *old(self),
            old(self).phase == ProbePhase::Idle ==> (match event {
                ProbeEvent::Tick(s) => final(self).sites@ == s@ && final(self).next == 0 && (if s@.len() > 0 {
                    final(self).phase == ProbePhase::AwaitingResponse && r == ProbeAction::Get(s@[0].url)
                } else {
                    final(self).phase == ProbePhase::Idle && r == ProbeAction::WaitForTick
                }),
                _ => r == ProbeAction::Ignore && *final(self) == *old(self),
            }),
            old(self).phase == ProbePhase::AwaitingResponse ==> (match event {
                ProbeEvent::Response(code) => final(self).phase == ProbePhase::AwaitingStore
                    && final(self).sites@ == old(self).sites@ && final(self).next == old(self).next
                    && r == (ProbeAction::InsertLog { alias: old(self).sites@[old(self).next as int].alias, status: code }),
                ProbeEvent::ProbeFailed(e) => final(self).phase == ProbePhase::Halted
                    && r == ProbeAction::Halt(ApiError::Probe(e)),
                _ => r == ProbeAction::Ignore && *final(self) == *old(self),
            }),
            old(self).phase == ProbePhase::AwaitingStore ==> (match event {
                ProbeEvent::Stored => final(self).sites@ == old(self).sites@ && final(self).next == old(self).next + 1
                    && (if old(self).next + 1 < old(self).sites@.len() {
                        final(self).phase == ProbePhase::AwaitingResponse
                            && r == ProbeAction::Get(old(self).sites@[old(self).next + 1].url)
                    } else {
                        final(self).phase == ProbePhase::Idle && r == ProbeAction::WaitForTick
                    }),
                ProbeEvent::StoreFailed(e) => final(self).phase == ProbePhase::Halted
                    && r == ProbeAction::Halt(ApiError::Storage(e)),
                _ => r == ProbeAction::Ignore && *final(self) == *old(self),
            }),
    {
        match self.phase {
            ProbePhase::Halted => ProbeAction::Ignore,
            ProbePhase::Idle => match event {
                ProbeEvent::Tick(s) => {
                    self.sites = s;
                    self.probe_from(0)
                },
                _ => ProbeAction::Ignore,
            },
            ProbePhase::AwaitingResponse => match event {
                ProbeEvent::Response(code) => {
                    self.phase = ProbePhase::AwaitingStore;
                    ProbeAction::InsertLog { alias: self.sites[self.next].alias.clone(), status: code }
                },
                ProbeEvent::ProbeFailed(e) => {
                    self.phase = ProbePhase::Halted;
                    ProbeAction::Halt(ApiError::Probe(e))
                },
                _ => ProbeAction::Ignore,
            },
            ProbePhase::AwaitingStore => match event {
                ProbeEvent::Stored => {
                    let count = self.sites.len();
                    assert(self.next < count);
                    let next = self.next + 1;
                    self.probe_from(next)
                },
                ProbeEvent::StoreFailed(e) => {
                    self.phase = ProbePhase::Halted;
                    ProbeAction::Halt(ApiError::Storage(e))
                },
                _ => ProbeAction::Ignore,
            },
        }
    }
}

} // verus!
