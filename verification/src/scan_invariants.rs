//! What holds of a scan at every moment, whatever it is answered, and of every tree that it gives.

use crate::control::ScanControl;
use crate::metadata;
use crate::metadata::Lookup;
use crate::paths::PathView;
use crate::rules;
use crate::rules::RuleView;
use crate::scan_model;
use crate::scan_model::{
    EntryPlan, Finding, FrameView, IgnoredMode, JobView, NodeView, ScanEnv, ScanFlags, Tally,
};
use crate::scan_steps::{Ending, StageView, WalkView};
use crate::world::ItemView;
use vstd::prelude::*;

verus! {

impl WalkView {
    /// How many paths the walk has begun to look at and is not done with.
    pub open spec fn open_paths(self) -> nat {
        self.frames.len() + match self.stage {
            StageView::Lookup(_) => 1nat,
            StageView::MetaGate(..) => 1nat,
            StageView::Rules(..) => 1nat,
            StageView::ListGate(..) => 1nat,
            StageView::Listing(..) => 1nat,
            _ => 0nat,
        }
    }

    /// Whether the walk has come to a halt before its end.
    pub open spec fn halted(self) -> bool {
        match self.stage {
            StageView::Stopping => true,
            StageView::Overflow => true,
            StageView::Done(Ending::Completed) => false,
            StageView::Done(_) => true,
            _ => false,
        }
    }

    /// The counters agree with what the walk is doing, as long as none of them is full: every path
    /// that was let in has been looked at, but for the one it is about to look at, and every path
    /// that was looked at is done with, but for those that are open and those that failed.
    pub open spec fn accounted(self) -> bool {
        self.control.admitted < u64::MAX ==> {
            &&& self.control.completed <= self.control.visited <= self.control.admitted
            &&& !self.halted() ==> {
                &&& self.control.admitted == self.control.visited + if self.stage is EnterGate {
                    1int
                } else {
                    0int
                }
                &&& self.control.visited >= self.control.completed + self.open_paths()
                &&& !self.has_failed() ==> self.control.visited == self.control.completed
                    + self.open_paths()
            }
        }
    }

    /// The counters agree with what the walk is doing where it has just left a path.
    spec fn settled(self) -> bool {
        self.control.admitted < u64::MAX ==> {
            &&& self.control.admitted == self.control.visited
            &&& self.control.visited >= self.control.completed + self.frames.len()
            &&& !self.has_failed() ==> self.control.visited == self.control.completed
                + self.frames.len()
        }
    }

    /// The walk with the given frame for that of the innermost directory.
    spec fn with_last(self, frame: FrameView) -> WalkView {
        WalkView { frames: self.frames.drop_last().push(frame), ..self }
    }

    /// What becomes of the innermost directory tells whether a path failed.
    proof fn failures_stay(self, frame: FrameView)
        requires
            self.frames.len() > 0,
        ensures
            self.with_last(frame).has_failed() == (frame.failed || self.left().has_failed()),
            self.has_failed() == (self.frames.last().failed || self.left().has_failed()),
            self.popped().has_failed() == self.left().has_failed(),
    {
        let outer = self.frames.drop_last();
        let other = outer.push(frame);
        assert(self.with_last(frame).frames == other);
        assert(self.popped().frames == outer);
        assert(self.left().frames == outer);
        if self.left().has_failed() {
            let i = choose|i: int| 0 <= i < outer.len() && (#[trigger] outer[i]).failed;
            assert(self.frames[i].failed);
            assert(other[i].failed);
        }
        assert(other[outer.len() as int] == frame);
        assert(self.frames[outer.len() as int] == self.frames.last());
        if exists|i: int| 0 <= i < other.len() && (#[trigger] other[i]).failed {
            let i = choose|i: int| 0 <= i < other.len() && (#[trigger] other[i]).failed;
            if i < outer.len() {
                assert(outer[i].failed);
            }
        }
        if self.has_failed() {
            let i = choose|i: int| 0 <= i < self.frames.len() && (#[trigger] self.frames[i]).failed;
            if i < outer.len() {
                assert(outer[i].failed);
            }
        }
    }

    proof fn settle_accounts(self, finding: Finding)
        requires
            self.settled(),
        ensures
            self.settle(finding).accounted(),
            self.control.not_ahead_of(self.settle(finding).control),
            self.settle(finding).control.admitted == self.control.admitted,
            self.settle(finding).control.bytes == self.control.bytes,
        decreases self.frames.len(), 1nat,
    {
        if self.frames.len() > 0 {
            self.failures_stay(self.frames.last().absorb(finding));
            self.absorbed(finding).advance_accounts();
        }
    }

    proof fn fail_accounts(self)
        requires
            self.control.admitted < u64::MAX ==> self.control.admitted == self.control.visited,
            self.control.admitted < u64::MAX ==> self.control.completed + self.frames.len()
                <= self.control.visited,
        ensures
            self.fail().accounted(),
            self.control.not_ahead_of(self.fail().control),
            self.fail().control.admitted == self.control.admitted,
            self.fail().control.bytes == self.control.bytes,
        decreases self.frames.len(), 1nat,
    {
        if self.frames.len() > 0 {
            self.failures_stay(FrameView { failed: true, ..self.frames.last() });
            self.marked().advance_accounts();
        }
    }

    proof fn advance_accounts(self)
        requires
            self.frames.len() > 0,
            self.settled(),
        ensures
            self.advance().accounted(),
            self.control.not_ahead_of(self.advance().control),
            self.advance().control.admitted == self.control.admitted,
            self.advance().control.bytes == self.control.bytes,
        decreases self.frames.len(), 0nat,
    {
        if self.frames.last().items.len() == 0 {
            self.failures_stay(self.frames.last());
            if self.frames.last().failed {
                self.left().fail_accounts();
            } else if let Some(finding) = self.frames.last().result(self.flags) {
                self.popped().settle_accounts(finding);
            }
        }
    }

    proof fn passing_accounts(self)
        requires
            self.wf(),
            self.accounted(),
            self.at_gate(),
        ensures
            self.passed().accounted(),
            self.control.not_ahead_of(self.passed().control),
    {
        match self.stage {
            StageView::MetaGate(job, meta) => {
                let counted = WalkView {
                    seen: metadata::counted(self.seen, meta),
                    control: self.control.after_bytes(meta.size()),
                    ..self
                };
                self.completed().settle_accounts(Finding::Nothing);
                counted.completed().settle_accounts(job.leaf(self.flags, meta.size()));
            },
            StageView::EntriesGate => {
                self.advance_accounts();
            },
            StageView::EntryGate => {
                let rest = WalkView {
                    frames: self.frames.drop_last().push(self.frames.last().rest()),
                    ..self
                };
                self.failures_stay(self.frames.last().rest());
                rest.advance_accounts();
            },
            _ => {},
        }
    }

    /// Every step keeps the counters in agreement with what the walk is doing, and no counter ever
    /// goes back.
    pub proof fn steps_are_accounted(
        self,
        cancel: bool,
        now: u64,
        lookup: Lookup,
        lines: Option<Seq<Seq<char>>>,
        listing: Option<Seq<ItemView>>,
    )
        requires
            self.wf(),
            self.accounted(),
        ensures
            self.at_gate() ==> {
                &&& self.on_signal(cancel, now).accounted()
                &&& self.control.not_ahead_of(self.on_signal(cancel, now).control)
                &&& self.on_poisoned(cancel, now).accounted()
                &&& self.control.not_ahead_of(self.on_poisoned(cancel, now).control)
            },
            self.stage is Lookup ==> {
                &&& self.on_lookup(lookup).accounted()
                &&& self.control.not_ahead_of(self.on_lookup(lookup).control)
            },
            self.stage is Rules ==> {
                &&& self.on_ignore_file(lines).accounted()
                &&& self.control.not_ahead_of(self.on_ignore_file(lines).control)
            },
            self.stage is Listing ==> {
                &&& self.on_listing(listing).accounted()
                &&& self.control.not_ahead_of(self.on_listing(listing).control)
            },
    {
        match self.stage {
            StageView::Lookup(_) => {
                self.completed().settle_accounts(Finding::Nothing);
            },
            StageView::Listing(job, own, outer) => {
                let frame = FrameView {
                    job,
                    own,
                    items: Seq::empty(),
                    children: Seq::empty(),
                    total: 0,
                    failed: false,
                    outer,
                };
                let inside = WalkView { frames: self.frames.push(frame), ..self };
                assert(inside.frames.drop_last() =~= self.frames);
                inside.failures_stay(frame);
                let items = match listing {
                    Some(items) => items,
                    None => Seq::empty(),
                };
                inside.failures_stay(FrameView { items, ..frame });
                assert(inside.left().has_failed() == self.has_failed());
                inside.advance_accounts();
                assert(self.frames.push(FrameView { items, ..frame }) =~= inside.frames.drop_last().push(
                    FrameView { items, ..frame },
                ));
            },
            _ => {
                if self.at_gate() {
                    let control = if cancel {
                        self.control.after_cancel()
                    } else {
                        self.control
                    };
                    let walk = WalkView { control, ..self };
                    assert(walk.has_failed() == self.has_failed());
                    walk.passing_accounts();
                    if self.stage is MetaGate {
                        walk.fail_accounts();
                    }
                }
            },
        }
    }

    proof fn settle_counts(self, finding: Finding)
        ensures
            self.control.not_ahead_of(self.settle(finding).control),
        decreases self.frames.len(), 1nat,
    {
        if self.frames.len() > 0 {
            self.absorbed(finding).advance_counts();
        }
    }

    proof fn fail_counts(self)
        ensures
            self.control.not_ahead_of(self.fail().control),
        decreases self.frames.len(), 1nat,
    {
        if self.frames.len() > 0 {
            self.marked().advance_counts();
        }
    }

    proof fn advance_counts(self)
        ensures
            self.control.not_ahead_of(self.advance().control),
        decreases self.frames.len(), 0nat,
    {
        if self.frames.len() > 0 && self.frames.last().items.len() == 0 {
            if self.frames.last().failed {
                self.left().fail_counts();
            } else if let Some(finding) = self.frames.last().result(self.flags) {
                self.popped().settle_counts(finding);
            }
        }
    }

    proof fn passing_counts(self)
        ensures
            self.control.not_ahead_of(self.passed().control),
    {
        match self.stage {
            StageView::MetaGate(job, meta) => {
                let counted = WalkView {
                    seen: metadata::counted(self.seen, meta),
                    control: self.control.after_bytes(meta.size()),
                    ..self
                };
                self.completed().settle_counts(Finding::Nothing);
                counted.completed().settle_counts(job.leaf(self.flags, meta.size()));
            },
            StageView::EntriesGate => {
                self.advance_counts();
            },
            StageView::EntryGate => {
                WalkView {
                    frames: self.frames.drop_last().push(self.frames.last().rest()),
                    ..self
                }.advance_counts();
            },
            _ => {},
        }
    }

    /// Whatever counters a walk started from and whatever it is answered, no counter ever goes back,
    /// and a walk that was cancelled stays so.
    pub proof fn steps_never_count_back(
        self,
        cancel: bool,
        now: u64,
        lookup: Lookup,
        lines: Option<Seq<Seq<char>>>,
        listing: Option<Seq<ItemView>>,
    )
        ensures
            self.control.not_ahead_of(self.on_signal(cancel, now).control),
            self.control.not_ahead_of(self.on_poisoned(cancel, now).control),
            self.control.not_ahead_of(self.on_lookup(lookup).control),
            self.control.not_ahead_of(self.on_ignore_file(lines).control),
            self.control.not_ahead_of(self.on_listing(listing).control),
    {
        let control = if cancel {
            self.control.after_cancel()
        } else {
            self.control
        };
        WalkView { control, ..self }.passing_counts();
        WalkView { control, ..self }.fail_counts();
        self.completed().settle_counts(Finding::Nothing);
        let frame = FrameView {
            job: self.stage->Listing_0,
            own: self.stage->Listing_1,
            items: Seq::empty(),
            children: Seq::empty(),
            total: 0,
            failed: false,
            outer: self.stage->Listing_2,
        };
        WalkView { frames: self.frames.push(frame), ..self }.advance_counts();
    }

    /// The walk still holds that a path failed, or is stopping or has ended without completing.
    pub open spec fn cannot_complete(self) -> bool {
        self.has_failed() || self.halted()
    }

    proof fn settle_keeps_failure(self, finding: Finding)
        requires
            self.has_failed(),
        ensures
            self.settle(finding).cannot_complete(),
        decreases self.frames.len(), 1nat,
    {
        self.failures_stay(self.frames.last().absorb(finding));
        self.absorbed(finding).advance_keeps_failure();
    }

    proof fn fail_keeps_failure(self)
        ensures
            self.fail().cannot_complete(),
        decreases self.frames.len(), 1nat,
    {
        if self.frames.len() > 0 {
            self.failures_stay(FrameView { failed: true, ..self.frames.last() });
            self.marked().advance_keeps_failure();
        }
    }

    proof fn advance_keeps_failure(self)
        requires
            self.has_failed(),
        ensures
            self.advance().cannot_complete(),
        decreases self.frames.len(), 0nat,
    {
        self.failures_stay(self.frames.last());
        if self.frames.last().items.len() > 0 {
            assert(self.advance().frames == self.frames);
        } else if self.frames.last().failed {
            self.left().fail_keeps_failure();
        } else if let Some(finding) = self.frames.last().result(self.flags) {
            self.popped().settle_keeps_failure(finding);
        }
    }

    proof fn passing_keeps_failure(self)
        requires
            self.wf(),
            self.has_failed(),
        ensures
            self.passed().cannot_complete(),
    {
        match self.stage {
            StageView::MetaGate(job, meta) => {
                let counted = WalkView {
                    seen: metadata::counted(self.seen, meta),
                    control: self.control.after_bytes(meta.size()),
                    ..self
                };
                assert(self.completed().frames == self.frames);
                assert(counted.completed().frames == self.frames);
                self.completed().settle_keeps_failure(Finding::Nothing);
                counted.completed().settle_keeps_failure(job.leaf(self.flags, meta.size()));
                assert(self.passed() == self.identified(job, meta));
                if !metadata::is_counted(self.seen, meta) && meta.is_dir() {
                    assert(self.passed().frames == self.frames);
                }
            },
            StageView::EntriesGate => {
                self.advance_keeps_failure();
            },
            StageView::EntryGate => {
                let rest = WalkView {
                    frames: self.frames.drop_last().push(self.frames.last().rest()),
                    ..self
                };
                self.failures_stay(self.frames.last().rest());
                rest.advance_keeps_failure();
                if self.frames.last().job.plan(
                    self.flags,
                    self.frames.last().items[0],
                    self.rules,
                ) is Visit {
                    assert(self.passed().frames == rest.frames);
                }
            },
            _ => {
                assert(self.passed().frames == self.frames);
            },
        }
    }

    /// A walk in which a path failed never completes, whatever it is answered from then on. It goes
    /// through the entries that are left, and ends as failed unless it was stopped before that.
    pub proof fn failures_are_never_lost(
        self,
        cancel: bool,
        now: u64,
        lookup: Lookup,
        lines: Option<Seq<Seq<char>>>,
        listing: Option<Seq<ItemView>>,
    )
        requires
            self.wf(),
            self.has_failed(),
        ensures
            self.at_gate() ==> self.on_signal(cancel, now).cannot_complete()
                && self.on_poisoned(cancel, now).cannot_complete(),
            self.stage is Lookup ==> self.on_lookup(lookup).cannot_complete(),
            self.stage is Rules ==> self.on_ignore_file(lines).cannot_complete(),
            self.stage is Listing ==> self.on_listing(listing).cannot_complete(),
    {
        match self.stage {
            StageView::Lookup(_) => {
                assert(self.completed().frames == self.frames);
                self.completed().settle_keeps_failure(Finding::Nothing);
                if lookup.effective(self.flags.follow_symlinks) is Some {
                    assert(self.on_lookup(lookup).frames == self.frames);
                }
            },
            StageView::Rules(..) => {
                assert(self.on_ignore_file(lines).frames == self.frames);
            },
            StageView::Listing(job, own, outer) => {
                let frame = FrameView {
                    job,
                    own,
                    items: Seq::empty(),
                    children: Seq::empty(),
                    total: 0,
                    failed: false,
                    outer,
                };
                let inside = WalkView { frames: self.frames.push(frame), ..self };
                assert(inside.frames.drop_last() =~= self.frames);
                assert(inside.left().has_failed() == self.has_failed());
                inside.failures_stay(frame);
                inside.advance_keeps_failure();
                if let Some(items) = listing {
                    let filled = FrameView { items, ..frame };
                    inside.failures_stay(filled);
                    assert(self.on_listing(listing).frames =~= inside.with_last(filled).frames);
                }
            },
            _ => {
                if self.at_gate() {
                    let control = if cancel {
                        self.control.after_cancel()
                    } else {
                        self.control
                    };
                    let walk = WalkView { control, ..self };
                    assert(walk.frames == self.frames);
                    walk.passing_keeps_failure();
                    walk.fail_keeps_failure();
                    if control.must_stop(self.deadline, now) && !(self.stage is Stopping) {
                        assert(self.on_signal(cancel, now).frames == self.frames);
                    }
                }
            },
        }
    }

    /// A walk that loses the state it shares where a path is to be counted in it never completes.
    pub proof fn lost_state_is_a_failure(self, cancel: bool, now: u64)
        requires
            self.stage is MetaGate,
            self.stage->MetaGate_1.key() is Some,
        ensures
            self.on_poisoned(cancel, now).cannot_complete(),
    {
        let control = if cancel {
            self.control.after_cancel()
        } else {
            self.control
        };
        WalkView { control, ..self }.fail_keeps_failure();
    }

    /// A walk that starts from counters at zero is accounted for, and one that has completed has
    /// looked at and is done with every path that it let in.
    pub proof fn ends_are_accounted(
        self,
        flags: ScanFlags,
        directories: Seq<PathView>,
        deadline: Option<u64>,
    )
        ensures
            WalkView::start(flags, directories, ScanControl::fresh(), deadline).accounted(),
            self.wf() && self.accounted() && self.stage == StageView::Done(Ending::Completed)
                && self.control.admitted < u64::MAX ==> self.control.visited == self.control.admitted
                && self.control.completed == self.control.admitted,
    {
    }

    /// A walk that sees it has to stop counts nothing more, lets nothing more in, and with its next
    /// signal ends: as cancelled when it was cancelled by then, else at its deadline.
    pub proof fn stopping_admits_nothing(self, cancel: bool, now: u64, cancel_again: bool, later: u64)
        requires
            self.at_gate(),
            !(self.stage is Stopping),
            self.control.cancelled || cancel || (self.deadline matches Some(at) && now >= at),
        ensures
            ({
                let stopping = self.on_signal(cancel, now);
                let end = stopping.on_signal(cancel_again, later);
                &&& stopping.stage is Stopping
                &&& stopping.control.snapshot() == self.control.snapshot()
                &&& end.control.snapshot() == self.control.snapshot()
                &&& end.stage == StageView::Done(
                    if self.control.cancelled || cancel || cancel_again {
                        Ending::Cancelled
                    } else {
                        Ending::Deadline
                    },
                )
            }),
    {
    }
}

/// Whether a node is one that a scan with these switches may give, and so is everything below it: a
/// collapsed node is ignored and has no children, ignored nodes only occur where they are to be
/// summarized, no child is hidden where hidden entries are left out, children are as deep as their
/// parent or one deeper, and a node is at least as large as its children together.
pub open spec fn is_proper(node: NodeView, flags: ScanFlags) -> bool
    decreases node,
{
    &&& node.collapsed ==> node.ignored && node.children.len() == 0
    &&& node.ignored ==> flags.respect_gitignore && flags.ignored_mode == IgnoredMode::Summarize
    &&& scan_model::sizes(node.children) <= node.size
    &&& forall|i: int|
        #![trigger node.children[i]]
        0 <= i < node.children.len() ==> {
            &&& flags.ignore_hidden ==> !node.children[i].path.is_hidden()
            &&& node.children[i].depth == node.depth || node.children[i].depth == node.depth + 1
            &&& is_proper(node.children[i], flags)
        }
}

pub open spec fn is_proper_job(job: JobView, flags: ScanFlags) -> bool {
    &&& job.collapsed ==> job.ignored
    &&& job.ignored ==> flags.respect_gitignore && flags.ignored_mode == IgnoredMode::Summarize
}

pub open spec fn is_proper_frame(frame: FrameView, flags: ScanFlags) -> bool {
    &&& is_proper_job(frame.job, flags)
    &&& frame.job.summed() ==> frame.children.len() == 0
    &&& forall|i: int|
        #![trigger frame.children[i]]
        0 <= i < frame.children.len() ==> {
            &&& flags.ignore_hidden ==> !frame.children[i].path.is_hidden()
            &&& frame.children[i].depth == frame.job.depth || frame.children[i].depth
                == frame.job.depth + 1
            &&& is_proper(frame.children[i], flags)
        }
}

impl ScanEnv {
    proof fn job_is_proper(self, job: JobView, rules: Seq<RuleView>, tally: Tally, fuel: nat)
        requires
            is_proper_job(job, self.flags),
        ensures
            self.scan_job(job, rules, tally, fuel) matches Some((Finding::Node(node), _)) ==> {
                &&& is_proper(node, self.flags)
                &&& node.path == job.path
                &&& node.depth == job.depth
                &&& node.ignored == job.ignored
                &&& node.collapsed == job.collapsed
                &&& !job.inner
            },
        decreases fuel, 1nat, 0nat,
    {
        if fuel > 0 {
            if let Some(meta) = (self.world.lookup)(job.path).effective(self.flags.follow_symlinks) {
                let extra: nat = if job.reads_rules(self.flags) || job.summed() {
                    1
                } else {
                    0
                };
                let inside = if job.reads_rules(self.flags) {
                    rules::rules_inside(
                        rules,
                        job.path.bytes,
                        (self.world.ignore_file)(job.path),
                    )
                } else {
                    rules
                };
                let items = match (self.world.listing)(job.path) {
                    Some(items) => items,
                    None => Seq::empty(),
                };
                let last: nat = if (self.world.listing)(job.path) is Some {
                    2
                } else {
                    1
                };
                let frame = FrameView {
                    job,
                    own: meta.size(),
                    items,
                    children: Seq::empty(),
                    total: 0,
                    failed: false,
                    outer: rules.len(),
                };
                let t = tally.answered(2).visited().answered(1).counted(meta).answered(extra).answered(
                    last,
                );
                self.filled_is_proper(frame, inside, t, fuel);
            }
        }
    }

    proof fn filled_is_proper(self, frame: FrameView, rules: Seq<RuleView>, tally: Tally, fuel: nat)
        requires
            is_proper_frame(frame, self.flags),
        ensures
            self.filled(frame, rules, tally, fuel) matches Some((Finding::Node(node), _)) ==> {
                &&& is_proper(node, self.flags)
                &&& node.path == frame.job.path
                &&& node.depth == frame.job.depth
                &&& node.ignored == frame.job.ignored
                &&& node.collapsed == frame.job.collapsed
                &&& !frame.job.inner
            },
        decreases fuel, 0nat, frame.items.len(),
    {
        if frame.items.len() > 0 {
            match frame.job.plan(self.flags, frame.items[0], rules) {
                EntryPlan::Skip => {
                    self.filled_is_proper(frame.rest(), rules, tally.answered(1), fuel);
                },
                EntryPlan::TooDeep => {},
                EntryPlan::Visit(job) => {
                    if fuel > 0 {
                        let t = tally.answered(2).admitted();
                        self.job_is_proper(job, rules, t, (fuel - 1) as nat);
                        if let Some((finding, after)) = self.scan_job(
                            job,
                            rules,
                            t,
                            (fuel - 1) as nat,
                        ) {
                            self.filled_is_proper(frame.rest().absorb(finding), rules, after, fuel);
                        }
                    }
                },
            }
        }
    }

    /// Every tree that a completed scan gives is one that its switches allow, and its root is neither
    /// ignored nor collapsed and lies at depth zero.
    pub proof fn roots_are_proper(
        self,
        directories: Seq<PathView>,
        roots: Seq<NodeView>,
        tally: Tally,
        fuel: nat,
    )
        requires
            forall|i: int|
                0 <= i < roots.len() ==> is_proper(#[trigger] roots[i], self.flags)
                    && !roots[i].ignored && !roots[i].collapsed && roots[i].depth == 0,
        ensures
            self.scan_roots(directories, roots, tally, fuel) matches Some((nodes, _)) ==> forall|
                i: int,
            |
                0 <= i < nodes.len() ==> is_proper(#[trigger] nodes[i], self.flags)
                    && !nodes[i].ignored && !nodes[i].collapsed && nodes[i].depth == 0,
        decreases directories.len(),
    {
        if directories.len() > 0 {
            let job = JobView::root(directories[0]);
            let t = tally.answered(1).admitted();
            self.job_is_proper(job, Seq::empty(), t, fuel);
            if let Some((finding, after)) = self.scan_job(job, Seq::empty(), t, fuel) {
                self.roots_are_proper(
                    directories.drop_first(),
                    scan_model::with_node(roots, finding),
                    after,
                    fuel,
                );
            }
        }
    }
}

} // verus!
