//! Where a scan looks at the cancel flag and the clock, and what it does when an entry fails.

use crate::metadata;
use crate::metadata::{Lookup, Metadata};
use crate::scan_model;
use crate::scan_model::{Finding, FrameView, JobView};
use crate::scan_steps::{Ending, StageView, WalkView};
use crate::scanner;
use crate::world::ItemView;
use vstd::prelude::*;

verus! {

impl WalkView {
    /// Whether the walk is between two paths, waiting for a signal before it goes on to the next, or
    /// has ended.
    pub open spec fn rests(self) -> bool {
        self.stage is RootGate || self.stage is EntryGate || self.stage is Done || self.stage
            is Overflow
    }

    proof fn settle_rests(self, finding: Finding)
        ensures
            self.settle(finding).rests(),
            self.settle(finding).control.visited == self.control.visited,
            self.settle(finding).control.admitted == self.control.admitted,
        decreases self.frames.len(), 1nat,
    {
        if self.frames.len() > 0 {
            self.absorbed(finding).advance_rests();
        }
    }

    proof fn advance_rests(self)
        ensures
            self.advance().rests(),
            self.advance().control.visited == self.control.visited,
            self.advance().control.admitted == self.control.admitted,
        decreases self.frames.len(), 0nat,
    {
        if self.frames.len() > 0 && self.frames.last().items.len() == 0 {
            if self.frames.last().failed {
                self.left().fail_rests();
            } else if let Some(finding) = self.frames.last().result(self.flags) {
                self.popped().settle_rests(finding);
            }
        }
    }

    proof fn fail_rests(self)
        ensures
            self.fail().rests(),
            self.fail().control.visited == self.control.visited,
            self.fail().control.admitted == self.control.admitted,
        decreases self.frames.len(), 1nat,
    {
        if self.frames.len() > 0 {
            self.marked().advance_rests();
        }
    }

    /// After every look at the file system that may be followed by another, but for that at an ignore
    /// file, the walk waits for a signal. Nothing is let in or looked at on the way.
    pub proof fn looks_are_followed_by_signals(
        self,
        job: JobView,
        lookup: Lookup,
        own: u64,
        outer: nat,
        items: Seq<ItemView>,
        lines: Option<Seq<Seq<char>>>,
    )
        ensures
            ({
                let next = self.at(StageView::Lookup(job)).on_lookup(lookup);
                &&& next.control.visited == self.control.visited
                &&& next.control.admitted == self.control.admitted
                &&& match lookup.effective(self.flags.follow_symlinks) {
                    None => next.rests(),
                    Some(meta) => next == self.at(StageView::MetaGate(job, meta)),
                }
            }),
            ({
                let next = self.at(StageView::Listing(job, own, outer)).on_listing(Some(items));
                &&& next.stage is EntriesGate
                &&& next.control == self.control
                &&& next.frames.len() == self.frames.len() + 1
                &&& next.frames.drop_last() == self.frames
                &&& next.frames.last().items == items
                &&& next.frames.last().job == job
            }),
            ({
                let next = self.at(StageView::Listing(job, own, outer)).on_listing(None);
                &&& next.rests()
                &&& next.control.visited == self.control.visited
                &&& next.control.admitted == self.control.admitted
            }),
            ({
                let next = self.at(StageView::Rules(job, own)).on_ignore_file(lines);
                &&& next.stage == StageView::Listing(job, own, self.rules.len())
                &&& next.control == self.control
                &&& next.frames == self.frames
            }),
    {
        let at = self.at(StageView::Lookup(job));
        at.completed().settle_rests(Finding::Nothing);
        let frame = FrameView {
            job,
            own,
            items: Seq::empty(),
            children: Seq::empty(),
            total: 0,
            failed: false,
            outer,
        };
        let inside = WalkView { frames: self.frames.push(frame), ..self }.at(
            StageView::Listing(job, own, outer),
        );
        inside.advance_rests();
        let next = self.at(StageView::Listing(job, own, outer)).on_listing(Some(items));
        assert(next.frames.drop_last() =~= self.frames);
    }

    /// What a signal that does not stop the walk lets it do: take up the next of the directories that
    /// were asked for, or let in the entry that it is at, which is counted; look at a path that was
    /// let in, which is counted; read a directory; or go on among its entries. Before a directory of
    /// which only sizes count is read there is another signal.
    pub proof fn signals_let_the_walk_go_on(self, job: JobView, meta: Metadata, own: u64, outer: nat)
        ensures
            ({
                let next = self.at(StageView::RootGate).passed();
                self.directories.len() > 0 ==> {
                    &&& next.stage == StageView::EnterGate(
                        JobView {
                            path: self.directories[0],
                            depth: 0,
                            ignored: false,
                            collapsed: false,
                            inner: false,
                        },
                    )
                    &&& next.directories == self.directories.skip(1)
                    &&& next.control == self.control.after_admission()
                }
            }),
            self.at(StageView::EnterGate(job)).passed() == (WalkView {
                control: self.control.after_visit(),
                stage: StageView::Lookup(job),
                ..self
            }),
            self.at(StageView::AdmitGate(job)).passed() == (WalkView {
                control: self.control.after_admission(),
                stage: StageView::EnterGate(job),
                ..self
            }),
            self.at(StageView::ListGate(job, own, outer)).passed() == self.at(
                StageView::Listing(job, own, outer),
            ),
            ({
                let next = self.at(StageView::MetaGate(job, meta)).passed();
                let fresh = !(meta.key() matches Some(key) && self.seen.contains(key));
                &&& next.control.visited == self.control.visited
                &&& next.control.admitted == self.control.admitted
                &&& !fresh || !meta.is_dir() ==> next.rests()
                &&& fresh && meta.is_dir() && (job.collapsed || job.inner) ==> next.stage
                    == StageView::ListGate(job, meta.size(), self.rules.len())
                &&& fresh && meta.is_dir() && !(job.collapsed || job.inner)
                    && self.flags.respect_gitignore ==> next.stage == StageView::Rules(
                    job,
                    meta.size(),
                )
                &&& fresh && meta.is_dir() && !(job.collapsed || job.inner)
                    && !self.flags.respect_gitignore ==> next.stage == StageView::Listing(
                    job,
                    meta.size(),
                    self.rules.len(),
                )
                &&& fresh && meta.is_dir() ==> next.control == self.control.after_bytes(meta.size())
            }),
            self.at(StageView::EntriesGate).passed().rests(),
            self.frames.len() > 0 && self.frames.last().items.len() > 0 ==> {
                let next = self.at(StageView::EntryGate).passed();
                &&& next.control.visited == self.control.visited
                &&& next.control.admitted == self.control.admitted
                &&& next.rests() || next.stage is AdmitGate
            },
    {
        let at = self.at(StageView::MetaGate(job, meta));
        let counted = WalkView {
            seen: metadata::counted(self.seen, meta),
            control: self.control.after_bytes(meta.size()),
            ..at
        };
        at.completed().settle_rests(Finding::Nothing);
        counted.completed().settle_rests(job.leaf(self.flags, meta.size()));
        self.at(StageView::EntriesGate).advance_rests();
        let here = self.at(StageView::EntryGate);
        WalkView {
            frames: here.frames.drop_last().push(here.frames.last().rest()),
            ..here
        }.advance_rests();
        assert(self.directories.drop_first() =~= self.directories.skip(1));
    }

    proof fn settle_keeps_settings(self, finding: Finding)
        ensures
            self.settle(finding).flags == self.flags,
            self.settle(finding).deadline == self.deadline,
            self.settle(finding).seen == self.seen,
        decreases self.frames.len(), 1nat,
    {
        if self.frames.len() > 0 {
            self.absorbed(finding).advance_keeps_settings();
        }
    }

    proof fn advance_keeps_settings(self)
        ensures
            self.advance().flags == self.flags,
            self.advance().deadline == self.deadline,
            self.advance().seen == self.seen,
        decreases self.frames.len(), 0nat,
    {
        if self.frames.len() > 0 && self.frames.last().items.len() == 0 {
            if self.frames.last().failed {
                self.left().fail_keeps_settings();
            } else if let Some(finding) = self.frames.last().result(self.flags) {
                self.popped().settle_keeps_settings(finding);
            }
        }
    }

    proof fn fail_keeps_settings(self)
        ensures
            self.fail().flags == self.flags,
            self.fail().deadline == self.deadline,
            self.fail().seen == self.seen,
        decreases self.frames.len(), 1nat,
    {
        if self.frames.len() > 0 {
            self.marked().advance_keeps_settings();
        }
    }

    /// Whatever a walk is answered, it keeps its switches and its deadline. What counts as counted
    /// changes only where a thing is counted.
    pub proof fn steps_keep_settings(
        self,
        cancel: bool,
        now: u64,
        lookup: Lookup,
        lines: Option<Seq<Seq<char>>>,
        listing: Option<Seq<ItemView>>,
    )
        ensures
            self.on_signal(cancel, now).flags == self.flags,
            self.on_signal(cancel, now).deadline == self.deadline,
            !(self.stage is MetaGate) ==> self.on_signal(cancel, now).seen == self.seen,
            self.on_poisoned(cancel, now).flags == self.flags,
            self.on_poisoned(cancel, now).deadline == self.deadline,
            self.on_lookup(lookup).flags == self.flags,
            self.on_lookup(lookup).deadline == self.deadline,
            self.on_lookup(lookup).seen == self.seen,
            self.on_ignore_file(lines).flags == self.flags,
            self.on_ignore_file(lines).deadline == self.deadline,
            self.on_ignore_file(lines).seen == self.seen,
            self.on_listing(listing).flags == self.flags,
            self.on_listing(listing).deadline == self.deadline,
            self.on_listing(listing).seen == self.seen,
    {
        let control = if cancel {
            self.control.after_cancel()
        } else {
            self.control
        };
        let walk = WalkView { control, ..self };
        walk.fail_keeps_settings();
        walk.advance_keeps_settings();
        self.completed().settle_keeps_settings(Finding::Nothing);
        walk.completed().settle_keeps_settings(Finding::Nothing);
        if let StageView::MetaGate(job, meta) = self.stage {
            let counted = WalkView {
                seen: metadata::counted(walk.seen, meta),
                control: walk.control.after_bytes(meta.size()),
                ..walk
            };
            counted.completed().settle_keeps_settings(job.leaf(self.flags, meta.size()));
        }
        WalkView {
            frames: walk.frames.drop_last().push(walk.frames.last().rest()),
            ..walk
        }.advance_keeps_settings();
        let frame = FrameView {
            job: self.stage->Listing_0,
            own: self.stage->Listing_1,
            items: Seq::empty(),
            children: Seq::empty(),
            total: 0,
            failed: false,
            outer: self.stage->Listing_2,
        };
        WalkView { frames: self.frames.push(frame), ..self }.advance_keeps_settings();
    }

    /// A path that fails takes nothing away from what is still to be gone through: the directory that
    /// it lies in is marked and its other entries come next; a directory of which none is left fails
    /// in turn; and a failure outside all directories ends the walk as failed.
    pub proof fn failing_skips_nothing(self)
        ensures
            self.frames.len() == 0 ==> self.fail() == self.at(StageView::Done(Ending::Failed)),
            self.frames.len() > 0 && self.frames.last().items.len() > 0 ==> self.fail() == (WalkView {
                stage: StageView::EntryGate,
                frames: self.frames.drop_last().push(
                    FrameView { failed: true, ..self.frames.last() },
                ),
                ..self
            }),
            self.frames.len() > 0 && self.frames.last().items.len() == 0 ==> self.fail()
                == (WalkView {
                frames: self.frames.drop_last(),
                rules: self.rules.take(self.frames.last().outer as int),
                ..self
            }).fail(),
    {
        if self.frames.len() > 0 {
            let marked = self.marked();
            assert(marked.frames.drop_last() =~= self.frames.drop_last());
            assert(marked.left() == WalkView {
                frames: self.frames.drop_last(),
                rules: self.rules.take(self.frames.last().outer as int),
                ..self
            });
            assert(self.fail() == marked.advance());
        }
    }

    /// A path fails exactly where the state that the scan shares is lost when the path is to be
    /// counted in it, and the walk does not have to stop.
    pub proof fn lost_state_fails_what_is_counted_in_it(
        self,
        job: JobView,
        meta: Metadata,
        cancel: bool,
        now: u64,
    )
        ensures
            ({
                let at = self.at(StageView::MetaGate(job, meta));
                let stops = cancel || self.control.cancelled || (self.deadline matches Some(by) && by
                    <= now);
                &&& meta.key() is Some && !stops ==> at.on_poisoned(cancel, now) == at.fail()
                &&& meta.key() is None || stops ==> at.on_poisoned(cancel, now) == at.on_signal(
                    cancel,
                    now,
                )
            }),
    {
    }
}

/// A failed scan says that the state of the scan was lost.
pub proof fn failures_say_what_was_lost()
    ensures
        scanner::POISONED@ == "scan inode state was poisoned"@,
{
}

impl FrameView {
    /// A directory comes to nothing exactly where it is a node with children whose sizes together are
    /// more than a number holds.
    pub proof fn only_large_sums_are_given_up(self, flags: scan_model::ScanFlags)
        ensures
            self.result(flags) is None <==> !self.job.collapsed && !self.job.inner
                && scan_model::sizes(self.children) > u64::MAX,
    {
    }
}

} // verus!
