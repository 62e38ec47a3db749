//! Several protocols in one process.

use vstd::prelude::*;

verus! {

/// One protocol that a process serves.
pub trait ProtocolRunner {
    spec fn called(&self) -> Seq<char>;

    fn name(&self) -> (r: &'static str)
        ensures
            r@ == self.called(),
    ;
}

/// The protocols of a process, in the order in which they were registered.
pub struct ProtocolRegistry<R: ProtocolRunner> {
    pub runners: Vec<R>,
}

impl<R: ProtocolRunner> ProtocolRegistry<R> {
    pub fn new() -> (r: Self)
        ensures
            r.runners@.len() == 0,
    {
        ProtocolRegistry { runners: Vec::new() }
    }

    /// The registry with one more protocol.
    pub fn register(self, runner: R) -> (r: Self)
        ensures
            r.runners@ == self.runners@.push(runner),
    {
        let mut runners: Vec<R> = self.runners;
        runners.push(runner);
        ProtocolRegistry { runners }
    }

    /// Starts to watch over the runners.
    pub fn supervise(&self) -> (r: Supervisor)
        ensures
            r == (Supervisor { running: self.runners@.len() as usize, aborted: false }),
    {
        Supervisor { running: self.runners.len(), aborted: false }
    }
}

impl<R: ProtocolRunner> Default for ProtocolRegistry<R> {
    fn default() -> (r: Self)
        ensures
            r.runners@.len() == 0,
    {
        ProtocolRegistry::new()
    }
}

/// What to do about the runners.
#[derive(Debug, Clone, Copy, PartialEq, Eq)]
pub enum Verdict {
    /// Wait for whichever runner ends next.
    Wait,
    /// All ended well.
    Done,
    /// One failed: end the others and report that failure.
    Abort,
}

/// Watches runners in the order in which they end, not in that in which they
/// were registered: a listener that never ends must not hide the failure of a
/// later one.
#[derive(Debug, Clone, Copy, PartialEq, Eq)]
pub struct Supervisor {
    pub running: usize,
    pub aborted: bool,
}

impl Supervisor {
    pub open spec fn current(self) -> Verdict {
        if self.aborted {
            Verdict::Abort
        } else if self.running == 0 {
            Verdict::Done
        } else {
            Verdict::Wait
        }
    }

    /// What to do now.
    pub fn verdict(&self) -> (r: Verdict)
        ensures
            r == self.current(),
    {
        if self.aborted {
            Verdict::Abort
        } else if self.running == 0 {
            Verdict::Done
        } else {
            Verdict::Wait
        }
    }

    /// The supervisor after a runner ended.
    pub open spec fn after(self, well: bool) -> Self {
        Supervisor {
            running: if self.running > 0 {
                (self.running - 1) as usize
            } else {
                0
            },
            aborted: self.aborted || !well,
        }
    }

    /// A runner ended, well or not.
    pub fn ended(&mut self, well: bool)
        ensures
            *final(self) == old(self).after(well),
    {
        if self.running > 0 {
            self.running = self.running - 1;
        }
        if !well {
            self.aborted = true;
        }
    }

    /// The supervisor after the runners ended so, in this order.
    pub open spec fn after_all(self, ends: Seq<bool>) -> Self
        decreases ends.len(),
    {
        if ends.len() == 0 {
            self
        } else {
            self.after_all(ends.drop_last()).after(ends.last())
        }
    }
}

/// The first failure aborts, whenever it comes and whoever is still running;
/// and only when every runner has ended well is all done.
pub proof fn law_first_failure_aborts(runners: usize, ends: Seq<bool>)
    requires
        ends.len() <= runners,
    ensures
        ({
            let s = (Supervisor { running: runners, aborted: false }).after_all(ends);
            &&& s.current() == Verdict::Abort <==> ends.contains(false)
            &&& s.current() == Verdict::Done <==> ends.len() == runners && !ends.contains(false)
            &&& s.running == runners - ends.len()
        }),
    decreases ends.len(),
{
    if ends.len() > 0 {
        let init = ends.drop_last();
        law_first_failure_aborts(runners, init);
        assert(ends =~= init.push(ends.last()));
        if init.contains(false) {
            let i = init.index_of(false);
            assert(ends[i] == false);
        }
        if ends.contains(false) {
            let i = ends.index_of(false);
            if i < init.len() {
                assert(init[i] == false);
            }
        }
        if !ends.last() {
            assert(ends[ends.len() - 1] == false);
        }
    }
}

/// A verdict says to abort after a failure, to go on waiting while a runner is
/// left, and that all is done when none is.
pub proof fn law_verdicts(s: Supervisor, well: bool)
    ensures
        s.aborted <==> s.current() == Verdict::Abort,
        !s.aborted && s.running > 0 <==> s.current() == Verdict::Wait,
        !s.aborted && s.running == 0 <==> s.current() == Verdict::Done,
        s.after(well).aborted <==> s.aborted || !well,
        s.running > 0 ==> s.after(well).running == s.running - 1,
        s.running == 0 ==> s.after(well).running == 0,
{
}

} // verus!
