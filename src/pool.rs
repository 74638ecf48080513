use vstd::prelude::*;

verus! {

/// Bookkeeping of the asynchronous bulk reads kept in flight on the capture
/// endpoint: every completion is resubmitted until a stop is requested, after
/// which the outstanding reads drain one completion at a time.
pub struct TransferPool {
    target: usize,
    in_flight: usize,
    stopping: bool,
}

impl TransferPool {
    /// Reads the pool keeps in flight while running.
    pub closed spec fn target(&self) -> nat {
        self.target as nat
    }

    /// Reads submitted and not yet completed.
    pub closed spec fn outstanding(&self) -> nat {
        self.in_flight as nat
    }

    /// A stop was requested.
    pub closed spec fn is_stopping(&self) -> bool {
        self.stopping
    }

    /// Never more reads outstanding than the target.
    pub open spec fn wf(&self) -> bool {
        self.outstanding() <= self.target()
    }

    /// A pool that will keep `target` reads in flight; none is submitted yet.
    pub fn new(target: usize) -> (r: Self)
        ensures
            r.wf(),
            r.target() == target,
            r.outstanding() == 0,
            !r.is_stopping(),
    {
        TransferPool { target, in_flight: 0, stopping: false }
    }

    /// Asks to submit one more read at start-up: granted while running and
    /// under the target.
    pub fn submit(&mut self) -> (r: bool)
        requires
            old(self).wf(),
        ensures
            final(self).wf(),
            r <==> (!old(self).is_stopping() && old(self).outstanding() < old(self).target()),
            final(self).outstanding() == old(self).outstanding() + if r {
                1nat
            } else {
                0nat
            },
            final(self).target() == old(self).target(),
            final(self).is_stopping() == old(self).is_stopping(),
    {
        if !self.stopping && self.in_flight < self.target {
            self.in_flight = self.in_flight + 1;
            true
        } else {
            false
        }
    }

    /// Records one completed read and says whether to resubmit it: yes while
    /// running, so the count in flight holds; no once stopping, so it drops.
    pub fn on_completion(&mut self) -> (resubmit: bool)
        requires
            old(self).wf(),
        ensures
            final(self).wf(),
            resubmit <==> (!old(self).is_stopping() && old(self).outstanding() > 0),
            final(self).outstanding() == if old(self).outstanding() == 0 {
                0
            } else if resubmit {
                old(self).outstanding() as int
            } else {
                old(self).outstanding() - 1
            },
            final(self).target() == old(self).target(),
            final(self).is_stopping() == old(self).is_stopping(),
    {
        if self.in_flight == 0 {
            false
        } else if self.stopping {
            self.in_flight = self.in_flight - 1;
            false
        } else {
            true
        }
    }

    /// Requests a stop: no read is resubmitted from now on.
    pub fn request_stop(&mut self)
        requires
            old(self).wf(),
        ensures
            final(self).wf(),
            final(self).is_stopping(),
            final(self).outstanding() == old(self).outstanding(),
            final(self).target() == old(self).target(),
    {
        self.stopping = true;
    }

    /// Reads submitted and not yet completed.
    pub fn in_flight(&self) -> (r: usize)
        ensures
            r == self.outstanding(),
    {
        self.in_flight
    }

    /// A stop was requested and every read has completed, so no completion
    /// can touch the capture buffers any more.
    pub fn is_drained(&self) -> (r: bool)
        ensures
            r <==> (self.is_stopping() && self.outstanding() == 0),
    {
        self.stopping && self.in_flight == 0
    }
}

} // verus!
