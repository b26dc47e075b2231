//! The steps of a scan: what a walk waits for, and where each answer takes it.

use crate::control::ScanControl;
use crate::metadata;
use crate::metadata::{Lookup, Metadata};
use crate::paths::PathView;
use crate::rules;
use crate::rules::RuleView;
use crate::scan_model;
use crate::scan_model::{EntryPlan, Finding, FrameView, JobView, NodeView, ScanFlags};
use crate::world::ItemView;
use vstd::prelude::*;

verus! {

/// How a walk ended.
#[derive(Clone, Copy, Debug, PartialEq, Eq, Structural)]
pub enum Ending {
    Completed,
    Cancelled,
    Deadline,
    Failed,
}

/// Where a walk stands. At a gate it waits for a signal: a look at the cancel flag and the clock.
pub enum StageView {
    /// A gate before the next directory that was asked for.
    RootGate,
    /// A gate before a path is looked at.
    EnterGate(JobView),
    /// Waits for what is found under a path.
    Lookup(JobView),
    /// A gate after that.
    MetaGate(JobView, Metadata),
    /// Waits for the ignore file of a directory of the given size.
    Rules(JobView, u64),
    /// A gate before the entries of a directory are read of which only the size counts.
    ListGate(JobView, u64, nat),
    /// Waits for the entries of a directory of the given size, with that many ignore files around it.
    Listing(JobView, u64, nat),
    /// A gate after that.
    EntriesGate,
    /// A gate before the next entry of the directory that is being gone through.
    EntryGate,
    /// A gate before an entry is let in.
    AdmitGate(JobView),
    /// Has to stop, and looks at the cancel flag once more to say why.
    Stopping,
    Done(Ending),
    /// Cannot go on: a sum or a depth does not fit a number.
    Overflow,
}

/// The state of a walk.
pub struct WalkView {
    pub flags: ScanFlags,
    /// The directories that are still to be scanned.
    pub directories: Seq<PathView>,
    /// The nodes of those that have been.
    pub roots: Seq<NodeView>,
    /// The directories that are being gone through, each inside the one before.
    pub frames: Seq<FrameView>,
    /// The ignore files in force, outermost first.
    pub rules: Seq<RuleView>,
    pub seen: Set<(u64, u64)>,
    pub control: ScanControl,
    pub deadline: Option<u64>,
    pub stage: StageView,
}

impl WalkView {
    /// A walk that is about to begin.
    pub open spec fn start(
        flags: ScanFlags,
        directories: Seq<PathView>,
        control: ScanControl,
        deadline: Option<u64>,
    ) -> WalkView {
        WalkView {
            flags,
            directories,
            roots: Seq::empty(),
            frames: Seq::empty(),
            rules: Seq::empty(),
            seen: Set::empty(),
            control,
            deadline,
            stage: StageView::RootGate,
        }.next_root()
    }

    pub open spec fn at(self, stage: StageView) -> WalkView {
        WalkView { stage, ..self }
    }

    /// On to the next directory that was asked for, or to the end.
    pub open spec fn next_root(self) -> WalkView {
        if self.directories.len() == 0 {
            self.at(StageView::Done(Ending::Completed))
        } else {
            self.at(StageView::RootGate)
        }
    }

    pub open spec fn completed(self) -> WalkView {
        WalkView { control: self.control.after_completion(), ..self }
    }

    /// The innermost directory takes up what an entry of it came to.
    pub open spec fn absorbed(self, finding: Finding) -> WalkView {
        WalkView {
            frames: self.frames.drop_last().push(self.frames.last().absorb(finding)),
            ..self
        }
    }

    /// The walk outside the innermost directory.
    pub open spec fn left(self) -> WalkView {
        WalkView {
            frames: self.frames.drop_last(),
            rules: self.rules.take(self.frames.last().outer as int),
            ..self
        }
    }

    /// The walk outside the innermost directory, once that is done with.
    pub open spec fn popped(self) -> WalkView {
        self.left().completed()
    }

    /// The walk cannot go on.
    pub open spec fn abandoned(self) -> WalkView {
        WalkView { frames: Seq::empty(), rules: Seq::empty(), ..self }.at(StageView::Overflow)
    }

    /// A path is done with and came to `finding`.
    pub open spec fn settle(self, finding: Finding) -> WalkView
        decreases self.frames.len(), 1nat,
    {
        if self.frames.len() == 0 {
            WalkView { roots: scan_model::with_node(self.roots, finding), ..self }.next_root()
        } else {
            self.absorbed(finding).advance()
        }
    }

    /// On to the next entry of the innermost directory, or out of it.
    pub open spec fn advance(self) -> WalkView
        decreases self.frames.len(), 0nat,
    {
        if self.frames.len() == 0 || self.frames.last().items.len() > 0 {
            self.at(StageView::EntryGate)
        } else if self.frames.last().failed {
            self.left().fail()
        } else {
            match self.frames.last().result(self.flags) {
                None => self.abandoned(),
                Some(finding) => self.popped().settle(finding),
            }
        }
    }

    /// The innermost directory takes up that an entry of it failed.
    pub open spec fn marked(self) -> WalkView {
        WalkView {
            frames: self.frames.drop_last().push(FrameView { failed: true, ..self.frames.last() }),
            ..self
        }
    }

    /// A path failed. The other entries of the directory that it lies in are still gone through; then
    /// that directory has failed too.
    pub open spec fn fail(self) -> WalkView
        decreases self.frames.len(), 1nat,
    {
        if self.frames.len() == 0 {
            self.at(StageView::Done(Ending::Failed))
        } else {
            self.marked().advance()
        }
    }

    /// Whether a path failed in one of the directories that are being gone through.
    pub open spec fn has_failed(self) -> bool {
        exists|i: int| 0 <= i < self.frames.len() && (#[trigger] self.frames[i]).failed
    }

    /// Whether the walk waits for a signal.
    pub open spec fn at_gate(self) -> bool {
        match self.stage {
            StageView::RootGate => true,
            StageView::EnterGate(..) => true,
            StageView::MetaGate(..) => true,
            StageView::ListGate(..) => true,
            StageView::EntriesGate => true,
            StageView::EntryGate => true,
            StageView::AdmitGate(..) => true,
            StageView::Stopping => true,
            _ => false,
        }
    }

    /// The walk has seen a signal: whether to cancel, and the time. It stops if it has to, and then
    /// says whether it was cancelled or ran out of time.
    pub open spec fn on_signal(self, cancel: bool, now: u64) -> WalkView {
        let control = if cancel {
            self.control.after_cancel()
        } else {
            self.control
        };
        let walk = WalkView { control, ..self };
        if self.stage is Stopping {
            walk.at(
                StageView::Done(
                    if control.cancelled {
                        Ending::Cancelled
                    } else {
                        Ending::Deadline
                    },
                ),
            )
        } else if control.must_stop(self.deadline, now) {
            walk.at(StageView::Stopping)
        } else {
            walk.passed()
        }
    }

    /// The walk has seen a signal after a lookup, and the state that it shares with others is lost.
    /// It stops if it has to. Else the path fails if what is under it can be told apart, since it is
    /// then to be counted in that state.
    pub open spec fn on_poisoned(self, cancel: bool, now: u64) -> WalkView {
        let control = if cancel {
            self.control.after_cancel()
        } else {
            self.control
        };
        if self.stage is MetaGate && self.stage->MetaGate_1.key() is Some && !control.must_stop(
            self.deadline,
            now,
        ) {
            WalkView { control, ..self }.fail()
        } else {
            self.on_signal(cancel, now)
        }
    }

    /// The walk goes on from where it waited for a signal.
    pub open spec fn passed(self) -> WalkView {
        match self.stage {
            StageView::RootGate => WalkView {
                directories: self.directories.drop_first(),
                control: self.control.after_admission(),
                ..self
            }.at(StageView::EnterGate(JobView::root(self.directories[0]))),
            StageView::EnterGate(job) => WalkView {
                control: self.control.after_visit(),
                ..self
            }.at(StageView::Lookup(job)),
            StageView::MetaGate(job, meta) => self.identified(job, meta),
            StageView::ListGate(job, own, outer) => self.at(StageView::Listing(job, own, outer)),
            StageView::EntriesGate => self.advance(),
            StageView::EntryGate => self.planned(),
            StageView::AdmitGate(job) => WalkView {
                control: self.control.after_admission(),
                ..self
            }.at(StageView::EnterGate(job)),
            _ => self,
        }
    }

    /// The metadata of a path is to be taken up.
    pub open spec fn identified(self, job: JobView, meta: Metadata) -> WalkView {
        let counted = WalkView {
            seen: metadata::counted(self.seen, meta),
            control: self.control.after_bytes(meta.size()),
            ..self
        };
        if metadata::is_counted(self.seen, meta) {
            self.completed().settle(Finding::Nothing)
        } else if !meta.is_dir() {
            counted.completed().settle(job.leaf(self.flags, meta.size()))
        } else if job.reads_rules(self.flags) {
            counted.at(StageView::Rules(job, meta.size()))
        } else if job.summed() {
            counted.at(StageView::ListGate(job, meta.size(), self.rules.len()))
        } else {
            counted.at(StageView::Listing(job, meta.size(), self.rules.len()))
        }
    }

    /// The next entry of the innermost directory is to be taken up.
    pub open spec fn planned(self) -> WalkView {
        let top = self.frames.last();
        let walk = WalkView { frames: self.frames.drop_last().push(top.rest()), ..self };
        match top.job.plan(self.flags, top.items[0], self.rules) {
            EntryPlan::Skip => walk.advance(),
            EntryPlan::TooDeep => walk.abandoned(),
            EntryPlan::Visit(job) => walk.at(StageView::AdmitGate(job)),
        }
    }

    /// The walk has learned what is found under the path that it asked about.
    pub open spec fn on_lookup(self, lookup: Lookup) -> WalkView {
        let job = self.stage->Lookup_0;
        match lookup.effective(self.flags.follow_symlinks) {
            None => self.completed().settle(Finding::Nothing),
            Some(meta) => self.at(StageView::MetaGate(job, meta)),
        }
    }

    /// The walk has learned the lines of the ignore file that it asked about.
    pub open spec fn on_ignore_file(self, lines: Option<Seq<Seq<char>>>) -> WalkView {
        let job = self.stage->Rules_0;
        WalkView {
            rules: rules::rules_inside(self.rules, job.path.bytes, lines),
            ..self
        }.at(StageView::Listing(job, self.stage->Rules_1, self.rules.len()))
    }

    /// The walk has learned the entries of the directory that it asked about.
    pub open spec fn on_listing(self, listing: Option<Seq<ItemView>>) -> WalkView {
        let frame = FrameView {
            job: self.stage->Listing_0,
            own: self.stage->Listing_1,
            items: Seq::empty(),
            children: Seq::empty(),
            total: 0,
            failed: false,
            outer: self.stage->Listing_2,
        };
        match listing {
            None => WalkView { frames: self.frames.push(frame), ..self }.advance(),
            Some(items) => WalkView {
                frames: self.frames.push(FrameView { items, ..frame }),
                ..self
            }.at(StageView::EntriesGate),
        }
    }

    /// Whether the parts of the state fit together: an entry is only gone on to where there is one,
    /// a directory is only gone on to where there is one, and no directory was entered with more
    /// ignore files around it than are in force.
    pub open spec fn wf(self) -> bool {
        &&& match self.stage {
            StageView::RootGate => self.frames.len() == 0 && self.directories.len() > 0,
            StageView::ListGate(_, _, outer) => self.may_enter(outer),
            StageView::Listing(_, _, outer) => self.may_enter(outer),
            StageView::EntriesGate => self.frames.len() > 0,
            StageView::EntryGate => self.frames.len() > 0 && self.frames.last().items.len() > 0,
            StageView::Done(Ending::Completed) => self.frames.len() == 0 && self.directories.len()
                == 0,
            _ => true,
        }
        &&& self.nested()
        &&& self.stage is Listing || self.balanced()
    }

    /// Whether every directory lies in the one before also by the ignore files around it.
    pub open spec fn nested(self) -> bool {
        &&& forall|i: int|
            0 <= i < self.frames.len() ==> (#[trigger] self.frames[i]).outer <= self.rules.len()
        &&& forall|i: int, j: int|
            0 <= i < j < self.frames.len() ==> (#[trigger] self.frames[i]).outer <= (
            #[trigger] self.frames[j]).outer
        &&& self.frames.len() > 0 ==> self.frames[0].outer == 0
    }

    /// Whether no ignore file is in force outside the directories that were asked for.
    pub open spec fn balanced(self) -> bool {
        self.frames.len() == 0 ==> self.rules.len() == 0
    }

    /// Whether a directory with `outer` ignore files around it may be entered.
    pub open spec fn may_enter(self, outer: nat) -> bool {
        &&& outer <= self.rules.len()
        &&& self.frames.len() == 0 ==> outer == 0
        &&& forall|i: int| 0 <= i < self.frames.len() ==> (#[trigger] self.frames[i]).outer <= outer
    }

    /// Where a walk goes when a path is done with does not depend on what it waited for.
    pub proof fn settle_ignores_stage(self, stage: StageView, finding: Finding)
        ensures
            self.at(stage).settle(finding) == self.settle(finding),
        decreases self.frames.len(), 1nat,
    {
        if self.frames.len() > 0 {
            self.absorbed(finding).advance_ignores_stage(stage);
        }
    }

    pub proof fn fail_ignores_stage(self, stage: StageView)
        ensures
            self.at(stage).fail() == self.fail(),
        decreases self.frames.len(), 1nat,
    {
        if self.frames.len() > 0 {
            self.marked().advance_ignores_stage(stage);
        }
    }

    pub proof fn advance_ignores_stage(self, stage: StageView)
        ensures
            self.at(stage).advance() == self.advance(),
        decreases self.frames.len(), 0nat,
    {
        if self.frames.len() > 0 && self.frames.last().items.len() == 0 {
            self.left().fail_ignores_stage(stage);
            if let Some(finding) = self.frames.last().result(self.flags) {
                self.popped().settle_ignores_stage(stage, finding);
            }
        }
    }

    pub proof fn settle_keeps_wf(self, finding: Finding)
        requires
            self.nested(),
            self.balanced(),
        ensures
            self.settle(finding).wf(),
        decreases self.frames.len(), 1nat,
    {
        if self.frames.len() > 0 {
            self.absorbed(finding).advance_keeps_wf();
        }
    }

    pub proof fn fail_keeps_wf(self)
        requires
            self.nested(),
            self.balanced(),
        ensures
            self.fail().wf(),
        decreases self.frames.len(), 1nat,
    {
        if self.frames.len() > 0 {
            self.marked().advance_keeps_wf();
        }
    }

    pub proof fn advance_keeps_wf(self)
        requires
            self.frames.len() > 0,
            self.nested(),
        ensures
            self.advance().wf(),
        decreases self.frames.len(), 0nat,
    {
        if self.frames.last().items.len() == 0 {
            if self.frames.last().failed {
                self.left().fail_keeps_wf();
            } else if let Some(finding) = self.frames.last().result(self.flags) {
                self.popped().settle_keeps_wf(finding);
            }
        }
    }

    pub proof fn passing_keeps_wf(self)
        requires
            self.wf(),
            self.at_gate(),
        ensures
            self.passed().wf(),
    {
        match self.stage {
            StageView::MetaGate(job, meta) => {
                let counted = WalkView {
                    seen: metadata::counted(self.seen, meta),
                    control: self.control.after_bytes(meta.size()),
                    ..self
                };
                self.completed().settle_keeps_wf(Finding::Nothing);
                counted.completed().settle_keeps_wf(job.leaf(self.flags, meta.size()));
            },
            StageView::EntriesGate => {
                self.advance_keeps_wf();
            },
            StageView::EntryGate => {
                let rest = WalkView {
                    frames: self.frames.drop_last().push(self.frames.last().rest()),
                    ..self
                };
                rest.advance_keeps_wf();
            },
            _ => {},
        }
    }

    /// Every step keeps the parts of the state together.
    pub proof fn steps_keep_wf(
        self,
        cancel: bool,
        now: u64,
        lookup: Lookup,
        lines: Option<Seq<Seq<char>>>,
        listing: Option<Seq<ItemView>>,
    )
        requires
            self.wf(),
        ensures
            self.at_gate() ==> self.on_signal(cancel, now).wf(),
            self.stage is MetaGate ==> self.on_poisoned(cancel, now).wf(),
            self.stage is Lookup ==> self.on_lookup(lookup).wf(),
            self.stage is Rules ==> self.on_ignore_file(lines).wf(),
            self.stage is Listing ==> self.on_listing(listing).wf(),
    {
        match self.stage {
            StageView::Lookup(_) => {
                self.completed().settle_keeps_wf(Finding::Nothing);
            },
            StageView::Listing(job, own, outer) => {
                let frame = FrameView {
                    job,
                    own,
                    items: Seq::empty(),
                    children: Seq::empty(),
                    total: 0,
                    failed: false,
                    outer,
                };
                WalkView { frames: self.frames.push(frame), ..self }.advance_keeps_wf();
            },
            _ => {
                if self.at_gate() {
                    let control = if cancel {
                        self.control.after_cancel()
                    } else {
                        self.control
                    };
                    WalkView { control, ..self }.passing_keeps_wf();
                    WalkView { control, ..self }.fail_keeps_wf();
                }
            },
        }
    }
}

} // verus!
