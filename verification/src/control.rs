//! What a running scan shares with those who watch it: progress counters and the cancel flag.

use vstd::prelude::*;

verus! {

/// How far a scan has come.
#[derive(Clone, Copy, Debug, PartialEq, Eq, Structural)]
pub struct ScanProgress {
    pub visited: u64,
    pub admitted: u64,
    pub completed: u64,
    pub bytes: u64,
}

/// The cancel flag and the counters of a scan. There is one of each per scan, so a control is handed
/// on and never copied: a copy would no longer follow what happens to the scan.
#[derive(Debug, PartialEq, Eq, Structural)]
pub struct ScanControl {
    pub cancelled: bool,
    pub visited: u64,
    pub admitted: u64,
    pub completed: u64,
    pub bytes: u64,
}

/// A sum that stays at the largest number once it gets there.
pub open spec fn capped(a: u64, b: u64) -> u64 {
    if a + b > u64::MAX {
        u64::MAX
    } else {
        (a + b) as u64
    }
}

impl Default for ScanControl {
    fn default() -> (control: ScanControl)
        ensures
            control == ScanControl::fresh(),
    {
        ScanControl { cancelled: false, visited: 0, admitted: 0, completed: 0, bytes: 0 }
    }
}

impl ScanControl {
    pub open spec fn fresh() -> ScanControl {
        ScanControl { cancelled: false, visited: 0, admitted: 0, completed: 0, bytes: 0 }
    }

    pub open spec fn after_cancel(self) -> ScanControl {
        ScanControl { cancelled: true, ..self }
    }

    pub open spec fn after_visit(self) -> ScanControl {
        ScanControl { visited: capped(self.visited, 1), ..self }
    }

    pub open spec fn after_admission(self) -> ScanControl {
        ScanControl { admitted: capped(self.admitted, 1), ..self }
    }

    pub open spec fn after_completion(self) -> ScanControl {
        ScanControl { completed: capped(self.completed, 1), ..self }
    }

    pub open spec fn after_bytes(self, bytes: u64) -> ScanControl {
        ScanControl { bytes: capped(self.bytes, bytes), ..self }
    }

    /// Whether every counter of `later` stands at least as high.
    pub open spec fn not_ahead_of(self, later: ScanControl) -> bool {
        &&& self.cancelled ==> later.cancelled
        &&& self.visited <= later.visited
        &&& self.admitted <= later.admitted
        &&& self.completed <= later.completed
        &&& self.bytes <= later.bytes
    }

    pub open spec fn snapshot(self) -> ScanProgress {
        ScanProgress {
            visited: self.visited,
            admitted: self.admitted,
            completed: self.completed,
            bytes: self.bytes,
        }
    }

    /// Whether a scan has to stop at the time `now`: it was cancelled, or its deadline is here.
    pub open spec fn must_stop(self, deadline: Option<u64>, now: u64) -> bool {
        self.cancelled || (deadline matches Some(at) && now >= at)
    }

    /// Asks the scan to stop.
    pub fn cancel(&mut self)
        ensures
            *final(self) == old(self).after_cancel(),
    {
        self.cancelled = true;
    }

    pub fn is_cancelled(&self) -> (cancelled: bool)
        ensures
            cancelled == self.cancelled,
    {
        self.cancelled
    }

    pub fn progress(&self) -> (progress: ScanProgress)
        ensures
            progress == self.snapshot(),
    {
        ScanProgress {
            visited: self.visited,
            admitted: self.admitted,
            completed: self.completed,
            bytes: self.bytes,
        }
    }

    /// Counts a path that is being looked at.
    pub fn visit(&mut self)
        ensures
            *final(self) == old(self).after_visit(),
    {
        self.visited = self.visited.saturating_add(1);
    }

    /// Counts a path that was let into the scan.
    pub fn record_admission(&mut self)
        ensures
            *final(self) == old(self).after_admission(),
    {
        self.admitted = self.admitted.saturating_add(1);
    }

    /// Counts a path that is done with.
    pub fn complete(&mut self)
        ensures
            *final(self) == old(self).after_completion(),
    {
        self.completed = self.completed.saturating_add(1);
    }

    /// Counts bytes that were found.
    pub fn add_bytes(&mut self, bytes: u64)
        ensures
            *final(self) == old(self).after_bytes(bytes),
    {
        self.bytes = self.bytes.saturating_add(bytes);
    }

    /// Whether a scan has to stop at the time `now`.
    pub fn should_stop(&self, deadline: Option<u64>, now: u64) -> (stop: bool)
        ensures
            stop == self.must_stop(deadline, now),
    {
        self.cancelled || match deadline {
            Some(at) => now >= at,
            None => false,
        }
    }
}

/// What counting does: each counter goes up by what is counted, up to the largest number, and nothing
/// else changes. Only cancelling sets the cancel flag.
pub proof fn counting_counts(control: ScanControl, bytes: u64)
    ensures
        control.after_visit().visited == if control.visited < u64::MAX {
            control.visited + 1
        } else {
            u64::MAX as int
        },
        control.after_visit() == (ScanControl { visited: control.after_visit().visited, ..control }),
        control.after_admission().admitted == if control.admitted < u64::MAX {
            control.admitted + 1
        } else {
            u64::MAX as int
        },
        control.after_admission() == (ScanControl {
            admitted: control.after_admission().admitted,
            ..control
        }),
        control.after_completion().completed == if control.completed < u64::MAX {
            control.completed + 1
        } else {
            u64::MAX as int
        },
        control.after_completion() == (ScanControl {
            completed: control.after_completion().completed,
            ..control
        }),
        control.after_bytes(bytes).bytes == if control.bytes + bytes <= u64::MAX {
            control.bytes + bytes
        } else {
            u64::MAX as int
        },
        control.after_bytes(bytes) == (ScanControl {
            bytes: control.after_bytes(bytes).bytes,
            ..control
        }),
        control.after_cancel() == (ScanControl { cancelled: true, ..control }),
        control.snapshot().visited == control.visited,
        control.snapshot().admitted == control.admitted,
        control.snapshot().completed == control.completed,
        control.snapshot().bytes == control.bytes,
{
}

/// A scan has to stop exactly where it was cancelled or its deadline has come.
pub proof fn scans_stop_when_told(control: ScanControl, deadline: u64, now: u64)
    ensures
        control.must_stop(None, now) <==> control.cancelled,
        control.must_stop(Some(deadline), now) <==> control.cancelled || deadline <= now,
{
}

/// Something that happens to the counters and the cancel flag.
pub enum ControlStep {
    Cancel,
    Visit,
    Admission,
    Completion,
    Bytes(u64),
}

impl ScanControl {
    pub open spec fn after_step(self, step: ControlStep) -> ScanControl {
        match step {
            ControlStep::Cancel => self.after_cancel(),
            ControlStep::Visit => self.after_visit(),
            ControlStep::Admission => self.after_admission(),
            ControlStep::Completion => self.after_completion(),
            ControlStep::Bytes(bytes) => self.after_bytes(bytes),
        }
    }

    pub open spec fn after_steps(self, steps: Seq<ControlStep>) -> ScanControl
        decreases steps.len(),
    {
        if steps.len() == 0 {
            self
        } else {
            self.after_steps(steps.drop_last()).after_step(steps.last())
        }
    }

    /// Counters start at zero, and whatever happens to them, in whatever order those who share them
    /// make it happen, none of them ever goes back.
    pub proof fn counters_never_go_back(self, steps: Seq<ControlStep>)
        ensures
            self.not_ahead_of(self.after_steps(steps)),
            ScanControl::fresh().snapshot() == (ScanProgress {
                visited: 0,
                admitted: 0,
                completed: 0,
                bytes: 0,
            }),
        decreases steps.len(),
    {
        if steps.len() > 0 {
            self.counters_never_go_back(steps.drop_last());
        }
    }
}

} // verus!
