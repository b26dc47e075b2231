//! What holds of every scan.

use crate::control::ScanControl;
use crate::metadata;
use crate::metadata::{Lookup, Metadata};
use crate::paths::PathView;
use crate::rules;
use crate::rules::RuleView;
use crate::scan_model;
use crate::scan_model::{
    EntryPlan, Finding, FrameView, JobView, NodeView, ScanEnv, ScanFlags, Tally,
};
use crate::scan_steps::{Ending, StageView, WalkView};
use crate::world::World;
use vstd::prelude::*;

verus! {

impl ScanEnv {
    /// What a scan comes to in which the innermost of `frames` has an entry that came to `finding`.
    pub open spec fn resumed(
        self,
        directories: Seq<PathView>,
        roots: Seq<NodeView>,
        frames: Seq<FrameView>,
        rules: Seq<RuleView>,
        finding: Finding,
        tally: Tally,
        fuel: nat,
    ) -> Option<(Seq<NodeView>, Tally)>
        decreases frames.len(),
    {
        if frames.len() == 0 {
            self.scan_roots(directories, scan_model::with_node(roots, finding), tally, fuel)
        } else {
            match self.filled(frames.last().absorb(finding), rules, tally, fuel) {
                None => None,
                Some((next, after)) => self.resumed(
                    directories,
                    roots,
                    frames.drop_last(),
                    rules.take(frames.last().outer as int),
                    next,
                    after,
                    fuel,
                ),
            }
        }
    }

    /// More levels to go down change nothing where fewer were enough.
    proof fn job_fuel(self, job: JobView, rules: Seq<RuleView>, tally: Tally, fuel: nat)
        ensures
            self.scan_job(job, rules, tally, fuel) is Some ==> self.scan_job(
                job,
                rules,
                tally,
                fuel + 1,
            ) == self.scan_job(job, rules, tally, fuel),
        decreases fuel, 1nat, 0nat,
    {
        if fuel > 0 {
            let t = tally.answered(2).visited();
            if let Some(meta) = (self.world.lookup)(job.path).effective(self.flags.follow_symlinks) {
                let t = t.answered(1);
                if !metadata::is_counted(t.seen, meta) && meta.is_dir() {
                    let counted = t.counted(meta);
                    let (inside, t) = if job.reads_rules(self.flags) {
                        (
                            rules::rules_inside(
                                rules,
                                job.path.bytes,
                                (self.world.ignore_file)(job.path),
                            ),
                            counted.answered(1),
                        )
                    } else {
                        (
                            rules,
                            counted.answered(
                                if job.summed() {
                                    1
                                } else {
                                    0
                                },
                            ),
                        )
                    };
                    let frame = FrameView {
                        job,
                        own: meta.size(),
                        items: Seq::empty(),
                        children: Seq::empty(),
                        total: 0,
                        failed: false,
                        outer: rules.len(),
                    };
                    match (self.world.listing)(job.path) {
                        None => {
                            self.filled_fuel(frame, inside, t.answered(1), fuel);
                        },
                        Some(items) => {
                            self.filled_fuel(
                                FrameView { items, ..frame },
                                inside,
                                t.answered(2),
                                fuel,
                            );
                        },
                    }
                }
            }
        }
    }

    proof fn filled_fuel(self, frame: FrameView, rules: Seq<RuleView>, tally: Tally, fuel: nat)
        ensures
            self.filled(frame, rules, tally, fuel) is Some ==> self.filled(
                frame,
                rules,
                tally,
                fuel + 1,
            ) == self.filled(frame, rules, tally, fuel),
        decreases fuel, 0nat, frame.items.len(),
    {
        if frame.items.len() > 0 {
            match frame.job.plan(self.flags, frame.items[0], rules) {
                EntryPlan::Skip => {
                    self.filled_fuel(frame.rest(), rules, tally.answered(1), fuel);
                },
                EntryPlan::TooDeep => {},
                EntryPlan::Visit(job) => {
                    if fuel > 0 {
                        let t = tally.answered(2).admitted();
                        self.job_fuel(job, rules, t, (fuel - 1) as nat);
                        if let Some((finding, after)) = self.scan_job(
                            job,
                            rules,
                            t,
                            (fuel - 1) as nat,
                        ) {
                            self.filled_fuel(frame.rest().absorb(finding), rules, after, fuel);
                        }
                    }
                },
            }
        }
    }
}

impl WalkView {
    pub open spec fn tally(self, answers: nat) -> Tally {
        Tally { seen: self.seen, control: self.control, answers }
    }

    pub open spec fn env(self, world: World) -> ScanEnv {
        ScanEnv { world, flags: self.flags }
    }

    /// What the scan comes to once the path that it is at has come to `found`, where `rules` are in
    /// force around that path.
    pub open spec fn after(
        self,
        world: World,
        rules: Seq<RuleView>,
        found: Option<(Finding, Tally)>,
        fuel: nat,
    ) -> Option<(Seq<NodeView>, Tally)> {
        match found {
            None => None,
            Some((finding, tally)) => self.env(world).resumed(
                self.directories,
                self.roots,
                self.frames,
                rules,
                finding,
                tally,
                fuel,
            ),
        }
    }

    /// What a walk that has had `answers` answers comes to in a file system that holds still, when it
    /// is not interrupted: its nodes, and the counters and the number of answers at its end.
    pub open spec fn forecast(
        self,
        world: World,
        answers: nat,
        fuel: nat,
    ) -> Option<(Seq<NodeView>, Tally)> {
        let env = self.env(world);
        let t = self.tally(answers);
        match self.stage {
            StageView::RootGate => env.scan_roots(self.directories, self.roots, t, fuel),
            StageView::EnterGate(job) => self.after(
                world,
                self.rules,
                env.scan_job(job, self.rules, t, fuel),
                fuel,
            ),
            StageView::Lookup(job) => self.after(
                world,
                self.rules,
                env.looked_up(job, (world.lookup)(job.path), self.rules, t.answered(1), fuel),
                fuel,
            ),
            StageView::MetaGate(job, meta) => self.after(
                world,
                self.rules,
                env.identified(job, meta, self.rules, t.answered(1), fuel),
                fuel,
            ),
            StageView::Rules(job, own) => self.after(
                world,
                self.rules,
                env.opened(
                    job,
                    own,
                    self.rules.len(),
                    rules::rules_inside(
                        self.rules,
                        job.path.bytes,
                        (world.ignore_file)(job.path),
                    ),
                    t.answered(1),
                    fuel,
                ),
                fuel,
            ),
            StageView::ListGate(job, own, outer) => self.after(
                world,
                self.rules.take(outer as int),
                env.opened(job, own, outer, self.rules, t.answered(1), fuel),
                fuel,
            ),
            StageView::Listing(job, own, outer) => self.after(
                world,
                self.rules.take(outer as int),
                env.opened(job, own, outer, self.rules, t, fuel),
                fuel,
            ),
            StageView::EntriesGate => self.after(
                world,
                self.rules,
                Some((Finding::Nothing, t.answered(1))),
                fuel,
            ),
            StageView::EntryGate => self.after(
                world,
                self.rules,
                Some((Finding::Nothing, t)),
                fuel,
            ),
            StageView::AdmitGate(job) => self.after(
                world,
                self.rules,
                env.scan_job(job, self.rules, t.answered(1).admitted(), fuel),
                fuel,
            ),
            StageView::Done(Ending::Completed) => Some((self.roots, t)),
            _ => None,
        }
    }

    proof fn settle_keeps_forecast(self, world: World, finding: Finding, answers: nat, fuel: nat)
        ensures
            self.after(world, self.rules, Some((finding, self.tally(answers))), fuel) matches Some(r)
                ==> self.settle(finding).forecast(world, answers, fuel) == Some(r),
        decreases self.frames.len(), 1nat,
    {
        if self.frames.len() > 0 {
            let next = self.absorbed(finding);
            assert(next.frames.drop_last() =~= self.frames.drop_last());
            next.advance_keeps_forecast(world, answers, fuel);
        }
    }

    proof fn advance_keeps_forecast(self, world: World, answers: nat, fuel: nat)
        requires
            self.frames.len() > 0,
        ensures
            self.after(world, self.rules, Some((Finding::Nothing, self.tally(answers))), fuel) matches Some(r)
                ==> self.advance().forecast(world, answers, fuel) == Some(r),
        decreases self.frames.len(), 0nat,
    {
        if self.frames.last().items.len() == 0 {
            if let Some(finding) = self.frames.last().result(self.flags) {
                self.popped().settle_keeps_forecast(world, finding, answers, fuel);
            }
        }
    }

    /// The walk after one more answer in a file system that holds still, when nothing interrupts it.
    pub open spec fn step(self, world: World) -> WalkView {
        match self.stage {
            StageView::Lookup(job) => self.on_lookup((world.lookup)(job.path)),
            StageView::Rules(job, _) => self.on_ignore_file((world.ignore_file)(job.path)),
            StageView::Listing(job, _, _) => self.on_listing((world.listing)(job.path)),
            _ => self.passed(),
        }
    }

    /// Whether the next answer leaves unchanged what the scan comes to.
    spec fn steady(self, world: World, answers: nat, fuel: nat) -> bool {
        self.forecast(world, answers, fuel) is Some ==> self.step(world).forecast(
            world,
            answers + 1,
            fuel,
        ) == self.forecast(world, answers, fuel)
    }

    proof fn steady_at_plain_gates(self, world: World, answers: nat, fuel: nat)
        requires
            self.wf(),
            self.stage is RootGate || self.stage is EnterGate || self.stage is ListGate
                || self.stage is AdmitGate,
        ensures
            self.steady(world, answers, fuel),
    {
        match self.stage {
            StageView::RootGate => {
                assert(self.rules =~= Seq::<RuleView>::empty());
            },
            _ => {},
        }
    }

    proof fn steady_at_lookup(self, world: World, answers: nat, fuel: nat)
        requires
            self.stage is Lookup,
        ensures
            self.steady(world, answers, fuel),
    {
        self.completed().settle_keeps_forecast(world, Finding::Nothing, answers + 1, fuel);
    }

    proof fn steady_at_metadata(self, world: World, answers: nat, fuel: nat)
        requires
            self.stage is MetaGate,
        ensures
            self.steady(world, answers, fuel),
    {
        let job = self.stage->MetaGate_0;
        let meta = self.stage->MetaGate_1;
        let counted = WalkView {
            seen: metadata::counted(self.seen, meta),
            control: self.control.after_bytes(meta.size()),
            ..self
        };
        assert(self.rules.take(self.rules.len() as int) =~= self.rules);
        if metadata::is_counted(self.seen, meta) {
            self.completed().settle_keeps_forecast(world, Finding::Nothing, answers + 1, fuel);
        } else if !meta.is_dir() {
            counted.completed().settle_keeps_forecast(
                world,
                job.leaf(self.flags, meta.size()),
                answers + 1,
                fuel,
            );
        }
    }

    proof fn steady_at_rules(self, world: World, answers: nat, fuel: nat)
        requires
            self.stage is Rules,
        ensures
            self.steady(world, answers, fuel),
    {
        let job = self.stage->Rules_0;
        let inside = rules::rules_inside(
            self.rules,
            job.path.bytes,
            (world.ignore_file)(job.path),
        );
        assert(inside.take(self.rules.len() as int) =~= self.rules);
    }

    proof fn steady_at_listing(self, world: World, answers: nat, fuel: nat)
        requires
            self.stage is Listing,
        ensures
            self.steady(world, answers, fuel),
    {
        let job = self.stage->Listing_0;
        let frame = FrameView {
            job,
            own: self.stage->Listing_1,
            items: Seq::empty(),
            children: Seq::empty(),
            total: 0,
            failed: false,
            outer: self.stage->Listing_2,
        };
        match (world.listing)(job.path) {
            None => {
                let empty = WalkView { frames: self.frames.push(frame), ..self };
                assert(empty.frames.drop_last() =~= self.frames);
                empty.advance_keeps_forecast(world, answers + 1, fuel);
            },
            Some(items) => {
                let full = self.frames.push(FrameView { items, ..frame });
                assert(full.drop_last() =~= self.frames);
            },
        }
    }

    proof fn steady_at_entry(self, world: World, answers: nat, fuel: nat)
        requires
            self.wf(),
            self.stage is EntryGate,
        ensures
            self.steady(world, answers, fuel),
    {
        let top = self.frames.last();
        let rest = WalkView { frames: self.frames.drop_last().push(top.rest()), ..self };
        assert(rest.frames.drop_last() =~= self.frames.drop_last());
        match top.job.plan(self.flags, top.items[0], self.rules) {
            EntryPlan::Skip => {
                rest.advance_keeps_forecast(world, answers + 1, fuel);
            },
            EntryPlan::TooDeep => {},
            EntryPlan::Visit(job) => {
                if fuel > 0 {
                    self.env(world).job_fuel(
                        job,
                        self.rules,
                        self.tally(answers).answered(2).admitted(),
                        (fuel - 1) as nat,
                    );
                }
            },
        }
    }

    /// No answer changes what the scan comes to.
    pub proof fn step_keeps_forecast(self, world: World, answers: nat, fuel: nat)
        requires
            self.wf(),
            !(self.stage is Done),
            self.forecast(world, answers, fuel) is Some,
        ensures
            self.step(world).forecast(world, answers + 1, fuel) == self.forecast(
                world,
                answers,
                fuel,
            ),
    {
        match self.stage {
            StageView::Lookup(_) => self.steady_at_lookup(world, answers, fuel),
            StageView::MetaGate(..) => self.steady_at_metadata(world, answers, fuel),
            StageView::Rules(..) => self.steady_at_rules(world, answers, fuel),
            StageView::Listing(..) => self.steady_at_listing(world, answers, fuel),
            StageView::EntriesGate => self.advance_keeps_forecast(world, answers + 1, fuel),
            StageView::EntryGate => self.steady_at_entry(world, answers, fuel),
            StageView::Stopping => {},
            StageView::Overflow => {},
            StageView::Done(_) => {},
            _ => self.steady_at_plain_gates(world, answers, fuel),
        }
    }
}

/// A count that stays at the largest number once it gets there.
pub open spec fn cap(count: nat) -> u64 {
    if count > u64::MAX {
        u64::MAX
    } else {
        count as u64
    }
}

/// The size that a path came to.
pub open spec fn finding_size(finding: Finding) -> nat {
    match finding {
        Finding::Nothing => 0,
        Finding::Node(node) => node.size as nat,
        Finding::Size(size) => size as nat,
    }
}

/// Whether a scan that went from one tally to another let in, looked at and was done with that many
/// paths and found that many bytes. Nothing that was counted is taken back.
pub open spec fn moved(
    from: Tally,
    to: Tally,
    admissions: nat,
    visits: nat,
    completions: nat,
    bytes: nat,
) -> bool {
    &&& to.control.cancelled == from.control.cancelled
    &&& to.control.admitted == cap((from.control.admitted + admissions) as nat)
    &&& to.control.visited == cap((from.control.visited + visits) as nat)
    &&& to.control.completed == cap((from.control.completed + completions) as nat)
    &&& to.control.bytes == cap((from.control.bytes + bytes) as nat)
    &&& from.answers <= to.answers
    &&& from.seen.subset_of(to.seen)
}

/// The size of what has been found in a directory, with the directory itself.
pub open spec fn size_so_far(frame: FrameView) -> nat {
    frame.own as nat + if frame.job.summed() {
        frame.total as nat
    } else {
        scan_model::sizes(frame.children)
    }
}

impl ScanEnv {
    /// A path that was let in is looked at and done with, and so is every path that it lets in; the
    /// bytes found are the size that it comes to.
    proof fn job_moves(self, job: JobView, rules: Seq<RuleView>, tally: Tally, fuel: nat) -> (r: (
        nat,
        nat,
    ))
        ensures
            self.scan_job(job, rules, tally, fuel) matches Some((finding, after)) ==> {
                &&& moved(tally, after, r.0, r.0 + 1, r.0 + 1, r.1)
                &&& finding_size(finding) == cap(r.1)
                &&& finding is Size ==> job.inner
                &&& finding is Node ==> !job.inner
            },
        decreases fuel, 1nat, 0nat,
    {
        if fuel == 0 {
            return (0, 0);
        }
        let t = tally.answered(2).visited();
        match (self.world.lookup)(job.path).effective(self.flags.follow_symlinks) {
            None => (0, 0),
            Some(meta) => {
                let t = t.answered(1);
                if metadata::is_counted(t.seen, meta) {
                    (0, 0)
                } else if !meta.is_dir() {
                    (0, meta.size() as nat)
                } else {
                    let counted = t.counted(meta);
                    let (inside, t) = if job.reads_rules(self.flags) {
                        (
                            rules::rules_inside(
                                rules,
                                job.path.bytes,
                                (self.world.ignore_file)(job.path),
                            ),
                            counted.answered(1),
                        )
                    } else {
                        (
                            rules,
                            counted.answered(
                                if job.summed() {
                                    1
                                } else {
                                    0
                                },
                            ),
                        )
                    };
                    let frame = FrameView {
                        job,
                        own: meta.size(),
                        items: Seq::empty(),
                        children: Seq::empty(),
                        total: 0,
                        failed: false,
                        outer: rules.len(),
                    };
                    let (k, x) = match (self.world.listing)(job.path) {
                        None => self.filled_moves(frame, inside, t.answered(1), fuel),
                        Some(items) => self.filled_moves(
                            FrameView { items, ..frame },
                            inside,
                            t.answered(2),
                            fuel,
                        ),
                    };
                    (k, meta.size() as nat + x)
                }
            },
        }
    }

    proof fn filled_moves(self, frame: FrameView, rules: Seq<RuleView>, tally: Tally, fuel: nat) -> (r: (
        nat,
        nat,
    ))
        ensures
            self.filled(frame, rules, tally, fuel) matches Some((finding, after)) ==> {
                &&& moved(tally, after, r.0, r.0, r.0 + 1, r.1)
                &&& finding_size(finding) == cap(size_so_far(frame) + r.1)
                &&& finding is Size ==> frame.job.inner
                &&& finding is Node ==> !frame.job.inner
            },
        decreases fuel, 0nat, frame.items.len(),
    {
        if frame.items.len() == 0 {
            return (0, 0);
        }
        match frame.job.plan(self.flags, frame.items[0], rules) {
            EntryPlan::Skip => self.filled_moves(frame.rest(), rules, tally.answered(1), fuel),
            EntryPlan::TooDeep => (0, 0),
            EntryPlan::Visit(job) => {
                if fuel == 0 {
                    return (0, 0);
                }
                let t = tally.answered(2).admitted();
                let (k1, x1) = self.job_moves(job, rules, t, (fuel - 1) as nat);
                match self.scan_job(job, rules, t, (fuel - 1) as nat) {
                    None => (0, 0),
                    Some((finding, after)) => {
                        let next = frame.rest().absorb(finding);
                        let (k2, x2) = self.filled_moves(next, rules, after, fuel);
                        if let Finding::Node(node) = finding {
                            assert(next.children.drop_last() =~= frame.children);
                        }
                        (k1 + k2 + 1, x1 + x2)
                    },
                }
            },
        }
    }

    proof fn roots_move(
        self,
        directories: Seq<PathView>,
        roots: Seq<NodeView>,
        tally: Tally,
        fuel: nat,
    ) -> (r: (nat, nat))
        ensures
            self.scan_roots(directories, roots, tally, fuel) matches Some((nodes, after)) ==> {
                &&& moved(tally, after, r.0, r.0, r.0, r.1)
                &&& cap(scan_model::sizes(nodes)) == cap(scan_model::sizes(roots) + r.1)
            },
        decreases directories.len(),
    {
        if directories.len() == 0 {
            return (0, 0);
        }
        let job = JobView::root(directories[0]);
        let t = tally.answered(1).admitted();
        let (k1, x1) = self.job_moves(job, Seq::empty(), t, fuel);
        match self.scan_job(job, Seq::empty(), t, fuel) {
            None => (0, 0),
            Some((finding, after)) => {
                let next = scan_model::with_node(roots, finding);
                let (k2, x2) = self.roots_move(directories.drop_first(), next, after, fuel);
                if let Finding::Node(node) = finding {
                    assert(next.drop_last() =~= roots);
                }
                (k1 + k2 + 1, x1 + x2)
            },
        }
    }
}

impl WalkView {
    /// The walk after `times` answers in a file system that holds still, when nothing interrupts it.
    pub open spec fn run(self, world: World, times: nat) -> WalkView
        decreases times,
    {
        if times == 0 {
            self
        } else {
            self.step(world).run(world, (times - 1) as nat)
        }
    }

    /// A walk has never had more answers than it will have had in the end.
    pub proof fn forecast_is_ahead(self, world: World, answers: nat, fuel: nat)
        ensures
            self.forecast(world, answers, fuel) matches Some((_, t)) ==> answers <= t.answers,
    {
        let env = self.env(world);
        let t = self.tally(answers);
        match self.stage {
            StageView::RootGate => {
                env.roots_move(self.directories, self.roots, t, fuel);
            },
            StageView::EnterGate(job) => {
                env.job_moves(job, self.rules, t, fuel);
                self.after_is_ahead(world, self.rules, env.scan_job(job, self.rules, t, fuel), fuel);
            },
            StageView::Lookup(job) => {
                let lookup = (world.lookup)(job.path);
                env.looked_up_is_ahead(job, lookup, self.rules, t.answered(1), fuel);
                self.after_is_ahead(
                    world,
                    self.rules,
                    env.looked_up(job, lookup, self.rules, t.answered(1), fuel),
                    fuel,
                );
            },
            StageView::MetaGate(job, meta) => {
                env.identified_is_ahead(job, meta, self.rules, t.answered(1), fuel);
                self.after_is_ahead(
                    world,
                    self.rules,
                    env.identified(job, meta, self.rules, t.answered(1), fuel),
                    fuel,
                );
            },
            StageView::Rules(job, own) => {
                let inside = rules::rules_inside(
                    self.rules,
                    job.path.bytes,
                    (world.ignore_file)(job.path),
                );
                env.opened_is_ahead(job, own, self.rules.len(), inside, t.answered(1), fuel);
                self.after_is_ahead(
                    world,
                    self.rules,
                    env.opened(job, own, self.rules.len(), inside, t.answered(1), fuel),
                    fuel,
                );
            },
            StageView::ListGate(job, own, outer) => {
                env.opened_is_ahead(job, own, outer, self.rules, t.answered(1), fuel);
                self.after_is_ahead(
                    world,
                    self.rules.take(outer as int),
                    env.opened(job, own, outer, self.rules, t.answered(1), fuel),
                    fuel,
                );
            },
            StageView::Listing(job, own, outer) => {
                env.opened_is_ahead(job, own, outer, self.rules, t, fuel);
                self.after_is_ahead(
                    world,
                    self.rules.take(outer as int),
                    env.opened(job, own, outer, self.rules, t, fuel),
                    fuel,
                );
            },
            StageView::EntriesGate => {
                self.after_is_ahead(
                    world,
                    self.rules,
                    Some((Finding::Nothing, t.answered(1))),
                    fuel,
                );
            },
            StageView::EntryGate => {
                self.after_is_ahead(world, self.rules, Some((Finding::Nothing, t)), fuel);
            },
            StageView::AdmitGate(job) => {
                env.job_moves(job, self.rules, t.answered(1).admitted(), fuel);
                self.after_is_ahead(
                    world,
                    self.rules,
                    env.scan_job(job, self.rules, t.answered(1).admitted(), fuel),
                    fuel,
                );
            },
            _ => {},
        }
    }

    proof fn after_is_ahead(
        self,
        world: World,
        rules: Seq<RuleView>,
        found: Option<(Finding, Tally)>,
        fuel: nat,
    )
        ensures
            found matches Some((_, from)) ==> (self.after(world, rules, found, fuel) matches Some(
                (_, to),
            ) ==> from.answers <= to.answers),
    {
        if let Some((finding, tally)) = found {
            self.env(world).resumed_is_ahead(
                self.directories,
                self.roots,
                self.frames,
                rules,
                finding,
                tally,
                fuel,
            );
        }
    }

    /// An uninterrupted walk through a file system that holds still ends after as many answers as the
    /// forecast says, with the nodes and the counters that the forecast says.
    pub proof fn run_meets_forecast(self, world: World, answers: nat, fuel: nat)
        requires
            self.wf(),
            self.forecast(world, answers, fuel) is Some,
        ensures
            ({
                let (roots, tally) = self.forecast(world, answers, fuel)->0;
                let end = self.run(world, (tally.answers - answers) as nat);
                &&& answers <= tally.answers
                &&& end.stage == StageView::Done(Ending::Completed)
                &&& end.roots == roots
                &&& end.seen == tally.seen
                &&& end.control == tally.control
            }),
        decreases (self.forecast(world, answers, fuel)->0).1.answers - answers,
    {
        self.forecast_is_ahead(world, answers, fuel);
        if !(self.stage is Done) {
            let next = self.step(world);
            self.step_keeps_forecast(world, answers, fuel);
            next.forecast_is_ahead(world, answers + 1, fuel);
            self.step_keeps_wf(world);
            next.run_meets_forecast(world, answers + 1, fuel);
        }
    }

    /// A step in a file system that holds still keeps the parts of the state together.
    pub proof fn step_keeps_wf(self, world: World)
        requires
            self.wf(),
            !(self.stage is Done || self.stage is Stopping || self.stage is Overflow),
        ensures
            self.step(world).wf(),
    {
        match self.stage {
            StageView::Lookup(job) => {
                self.steps_keep_wf(false, 0, (world.lookup)(job.path), None, None);
            },
            StageView::Rules(job, _) => {
                self.steps_keep_wf(false, 0, arbitrary(), (world.ignore_file)(job.path), None);
            },
            StageView::Listing(job, _, _) => {
                self.steps_keep_wf(false, 0, arbitrary(), None, (world.listing)(job.path));
            },
            _ => {
                self.passing_keeps_wf();
            },
        }
    }
}

impl ScanEnv {
    proof fn resumed_is_ahead(
        self,
        directories: Seq<PathView>,
        roots: Seq<NodeView>,
        frames: Seq<FrameView>,
        rules: Seq<RuleView>,
        finding: Finding,
        tally: Tally,
        fuel: nat,
    )
        ensures
            self.resumed(directories, roots, frames, rules, finding, tally, fuel) matches Some((_, to))
                ==> tally.answers <= to.answers,
        decreases frames.len(),
    {
        if frames.len() == 0 {
            self.roots_move(directories, scan_model::with_node(roots, finding), tally, fuel);
        } else {
            let frame = frames.last().absorb(finding);
            self.filled_moves(frame, rules, tally, fuel);
            if let Some((next, after)) = self.filled(frame, rules, tally, fuel) {
                self.resumed_is_ahead(
                    directories,
                    roots,
                    frames.drop_last(),
                    rules.take(frames.last().outer as int),
                    next,
                    after,
                    fuel,
                );
            }
        }
    }

    proof fn opened_is_ahead(
        self,
        job: JobView,
        own: u64,
        outer: nat,
        rules: Seq<RuleView>,
        tally: Tally,
        fuel: nat,
    )
        ensures
            self.opened(job, own, outer, rules, tally, fuel) matches Some((_, to)) ==> tally.answers
                <= to.answers,
    {
        let frame = FrameView {
            job,
            own,
            items: Seq::empty(),
            children: Seq::empty(),
            total: 0,
            failed: false,
            outer,
        };
        match (self.world.listing)(job.path) {
            None => {
                self.filled_moves(frame, rules, tally.answered(1), fuel);
            },
            Some(items) => {
                self.filled_moves(FrameView { items, ..frame }, rules, tally.answered(2), fuel);
            },
        }
    }

    proof fn identified_is_ahead(
        self,
        job: JobView,
        meta: Metadata,
        rules: Seq<RuleView>,
        tally: Tally,
        fuel: nat,
    )
        ensures
            self.identified(job, meta, rules, tally, fuel) matches Some((_, to)) ==> tally.answers
                <= to.answers,
    {
        let counted = tally.counted(meta);
        if job.reads_rules(self.flags) {
            self.opened_is_ahead(
                job,
                meta.size(),
                rules.len(),
                rules::rules_inside(rules, job.path.bytes, (self.world.ignore_file)(job.path)),
                counted.answered(1),
                fuel,
            );
        } else {
            self.opened_is_ahead(
                job,
                meta.size(),
                rules.len(),
                rules,
                counted.answered(
                    if job.summed() {
                        1
                    } else {
                        0
                    },
                ),
                fuel,
            );
        }
    }

    proof fn looked_up_is_ahead(
        self,
        job: JobView,
        lookup: Lookup,
        rules: Seq<RuleView>,
        tally: Tally,
        fuel: nat,
    )
        ensures
            self.looked_up(job, lookup, rules, tally, fuel) matches Some((_, to)) ==> tally.answers
                <= to.answers,
    {
        if let Some(meta) = lookup.effective(self.flags.follow_symlinks) {
            self.identified_is_ahead(job, meta, rules, tally.answered(1), fuel);
        }
    }
}

impl ScanEnv {
    proof fn job_is_unwatched(
        self,
        job: JobView,
        rules: Seq<RuleView>,
        one: Tally,
        other: Tally,
        fuel: nat,
    )
        requires
            one.seen == other.seen,
        ensures
            match (
                self.scan_job(job, rules, one, fuel),
                self.scan_job(job, rules, other, fuel),
            ) {
                (Some((f, t)), Some((g, u))) => f == g && t.seen == u.seen,
                (None, None) => true,
                _ => false,
            },
        decreases fuel, 1nat, 0nat,
    {
        if fuel > 0 {
            if let Some(meta) = (self.world.lookup)(job.path).effective(self.flags.follow_symlinks) {
                let extra: nat = if job.reads_rules(self.flags) || job.summed() {
                    1
                } else {
                    0
                };
                let inside = if job.reads_rules(self.flags) {
                    rules::rules_inside(
                        rules,
                        job.path.bytes,
                        (self.world.ignore_file)(job.path),
                    )
                } else {
                    rules
                };
                let items = match (self.world.listing)(job.path) {
                    Some(items) => items,
                    None => Seq::empty(),
                };
                let last: nat = if (self.world.listing)(job.path) is Some {
                    2
                } else {
                    1
                };
                let frame = FrameView {
                    job,
                    own: meta.size(),
                    items,
                    children: Seq::empty(),
                    total: 0,
                    failed: false,
                    outer: rules.len(),
                };
                let a = one.answered(2).visited().answered(1).counted(meta).answered(extra).answered(last);
                let b = other.answered(2).visited().answered(1).counted(meta).answered(extra).answered(
                    last,
                );
                self.filled_is_unwatched(frame, inside, a, b, fuel);
            }
        }
    }

    proof fn filled_is_unwatched(
        self,
        frame: FrameView,
        rules: Seq<RuleView>,
        one: Tally,
        other: Tally,
        fuel: nat,
    )
        requires
            one.seen == other.seen,
        ensures
            match (
                self.filled(frame, rules, one, fuel),
                self.filled(frame, rules, other, fuel),
            ) {
                (Some((f, t)), Some((g, u))) => f == g && t.seen == u.seen,
                (None, None) => true,
                _ => false,
            },
        decreases fuel, 0nat, frame.items.len(),
    {
        if frame.items.len() > 0 {
            match frame.job.plan(self.flags, frame.items[0], rules) {
                EntryPlan::Skip => {
                    self.filled_is_unwatched(
                        frame.rest(),
                        rules,
                        one.answered(1),
                        other.answered(1),
                        fuel,
                    );
                },
                EntryPlan::TooDeep => {},
                EntryPlan::Visit(job) => {
                    if fuel > 0 {
                        let a = one.answered(2).admitted();
                        let b = other.answered(2).admitted();
                        self.job_is_unwatched(job, rules, a, b, (fuel - 1) as nat);
                        match (
                            self.scan_job(job, rules, a, (fuel - 1) as nat),
                            self.scan_job(job, rules, b, (fuel - 1) as nat),
                        ) {
                            (Some((f, t)), Some((g, u))) => {
                                self.filled_is_unwatched(frame.rest().absorb(f), rules, t, u, fuel);
                            },
                            _ => {},
                        }
                    }
                },
            }
        }
    }

    /// The nodes of a scan that completes do not depend on the counters that it started from: a scan
    /// that is watched finds what one finds that is not.
    pub proof fn roots_are_unwatched(
        self,
        directories: Seq<PathView>,
        roots: Seq<NodeView>,
        one: Tally,
        other: Tally,
        fuel: nat,
    )
        requires
            one.seen == other.seen,
        ensures
            match (
                self.scan_roots(directories, roots, one, fuel),
                self.scan_roots(directories, roots, other, fuel),
            ) {
                (Some((n, t)), Some((m, u))) => n == m && t.seen == u.seen,
                (None, None) => true,
                _ => false,
            },
        decreases directories.len(),
    {
        if directories.len() > 0 {
            let job = JobView::root(directories[0]);
            let a = one.answered(1).admitted();
            let b = other.answered(1).admitted();
            self.job_is_unwatched(job, Seq::empty(), a, b, fuel);
            match (
                self.scan_job(job, Seq::empty(), a, fuel),
                self.scan_job(job, Seq::empty(), b, fuel),
            ) {
                (Some((f, t)), Some((g, u))) => {
                    self.roots_are_unwatched(
                        directories.drop_first(),
                        scan_model::with_node(roots, f),
                        t,
                        u,
                        fuel,
                    );
                },
                _ => {},
            }
        }
    }
}

/// What a scan of the directories comes to that starts from `control`.
pub open spec fn whole_scan(
    world: World,
    flags: ScanFlags,
    directories: Seq<PathView>,
    control: ScanControl,
    fuel: nat,
) -> Option<(Seq<NodeView>, Tally)> {
    ScanEnv { world, flags }.scan_roots(
        directories,
        Seq::empty(),
        Tally { seen: Set::empty(), control, answers: 0 },
        fuel,
    )
}

/// A scan of a file system that holds still, answered truthfully and not interrupted, completes, and
/// its nodes and counters are those that the file system comes to.
pub proof fn scan_completes(
    world: World,
    flags: ScanFlags,
    directories: Seq<PathView>,
    control: ScanControl,
    deadline: Option<u64>,
    fuel: nat,
)
    requires
        whole_scan(world, flags, directories, control, fuel) is Some,
    ensures
        ({
            let (roots, tally) = whole_scan(world, flags, directories, control, fuel)->0;
            let end = WalkView::start(flags, directories, control, deadline).run(
                world,
                tally.answers,
            );
            &&& end.stage == StageView::Done(Ending::Completed)
            &&& end.roots == roots
            &&& end.control == tally.control
        }),
{
    WalkView::start(flags, directories, control, deadline).run_meets_forecast(world, 0, fuel);
}

impl ScanEnv {
    /// Whether every directory that can be reached is told apart from all others by a key in `keys`.
    pub open spec fn has_keys(self, keys: Set<(u64, u64)>) -> bool {
        forall|path: PathView|
            (#[trigger] (self.world.lookup)(path)).effective(self.flags.follow_symlinks) matches Some(meta)
                ==> (meta.is_dir() ==> meta.key() is Some && keys.contains(meta.key()->0))
    }

    proof fn job_levels(
        self,
        job: JobView,
        rules: Seq<RuleView>,
        tally: Tally,
        fuel: nat,
        keys: Set<(u64, u64)>,
    )
        requires
            keys.finite(),
            self.has_keys(keys),
            keys.difference(tally.seen).len() < fuel,
        ensures
            self.scan_job(job, rules, tally, fuel + 1) == self.scan_job(job, rules, tally, fuel),
        decreases fuel, 1nat, 0nat,
    {
        if let Some(meta) = (self.world.lookup)(job.path).effective(self.flags.follow_symlinks) {
            let t = tally.answered(2).visited().answered(1);
            if !metadata::is_counted(t.seen, meta) && meta.is_dir() {
                let key = meta.key()->0;
                assert(keys.contains(key) && !tally.seen.contains(key));
                assert(keys.difference(t.counted(meta).seen) =~= keys.difference(
                    tally.seen,
                ).remove(key));
                let extra: nat = if job.reads_rules(self.flags) || job.summed() {
                    1
                } else {
                    0
                };
                let inside = if job.reads_rules(self.flags) {
                    rules::rules_inside(
                        rules,
                        job.path.bytes,
                        (self.world.ignore_file)(job.path),
                    )
                } else {
                    rules
                };
                let items = match (self.world.listing)(job.path) {
                    Some(items) => items,
                    None => Seq::empty(),
                };
                let last: nat = if (self.world.listing)(job.path) is Some {
                    2
                } else {
                    1
                };
                let frame = FrameView {
                    job,
                    own: meta.size(),
                    items,
                    children: Seq::empty(),
                    total: 0,
                    failed: false,
                    outer: rules.len(),
                };
                self.filled_levels(
                    frame,
                    inside,
                    t.counted(meta).answered(extra).answered(last),
                    fuel,
                    keys,
                );
            }
        }
    }

    proof fn filled_levels(
        self,
        frame: FrameView,
        rules: Seq<RuleView>,
        tally: Tally,
        fuel: nat,
        keys: Set<(u64, u64)>,
    )
        requires
            keys.finite(),
            self.has_keys(keys),
            keys.difference(tally.seen).len() + 1 < fuel,
        ensures
            self.filled(frame, rules, tally, fuel + 1) == self.filled(frame, rules, tally, fuel),
        decreases fuel, 0nat, frame.items.len(),
    {
        if frame.items.len() > 0 {
            match frame.job.plan(self.flags, frame.items[0], rules) {
                EntryPlan::Skip => {
                    self.filled_levels(frame.rest(), rules, tally.answered(1), fuel, keys);
                },
                EntryPlan::TooDeep => {},
                EntryPlan::Visit(job) => {
                    let t = tally.answered(2).admitted();
                    let lower = (fuel - 1) as nat;
                    self.job_levels(job, rules, t, lower, keys);
                    self.job_moves(job, rules, t, lower);
                    if let Some((finding, after)) = self.scan_job(job, rules, t, lower) {
                        assert(keys.difference(after.seen).subset_of(keys.difference(tally.seen)));
                        vstd::set_lib::lemma_len_subset(
                            keys.difference(after.seen),
                            keys.difference(tally.seen),
                        );
                        self.filled_levels(
                            frame.rest().absorb(finding),
                            rules,
                            after,
                            fuel,
                            keys,
                        );
                    }
                },
            }
        }
    }

    /// A scan comes to an end even where symbolic links that are followed lead in circles: it goes
    /// down no more levels than there are directories, so that more to go down change nothing.
    pub proof fn levels_are_bounded(
        self,
        directories: Seq<PathView>,
        roots: Seq<NodeView>,
        tally: Tally,
        fuel: nat,
        keys: Set<(u64, u64)>,
    )
        requires
            keys.finite(),
            self.has_keys(keys),
            keys.difference(tally.seen).len() < fuel,
        ensures
            self.scan_roots(directories, roots, tally, fuel + 1) == self.scan_roots(
                directories,
                roots,
                tally,
                fuel,
            ),
        decreases directories.len(),
    {
        if directories.len() > 0 {
            let job = JobView::root(directories[0]);
            let t = tally.answered(1).admitted();
            self.job_levels(job, Seq::empty(), t, fuel, keys);
            self.job_moves(job, Seq::empty(), t, fuel);
            if let Some((finding, after)) = self.scan_job(job, Seq::empty(), t, fuel) {
                assert(keys.difference(after.seen).subset_of(keys.difference(tally.seen)));
                vstd::set_lib::lemma_len_subset(
                    keys.difference(after.seen),
                    keys.difference(tally.seen),
                );
                self.levels_are_bounded(
                    directories.drop_first(),
                    scan_model::with_node(roots, finding),
                    after,
                    fuel,
                    keys,
                );
            }
        }
    }
}

impl WalkView {
    /// Whether nothing ever stops the walk: it was not cancelled and has no deadline.
    pub open spec fn is_calm(self) -> bool {
        !self.control.cancelled && self.deadline is None
    }

    proof fn settle_keeps_calm(self, finding: Finding)
        ensures
            self.is_calm() ==> self.settle(finding).is_calm(),
        decreases self.frames.len(), 1nat,
    {
        if self.frames.len() > 0 {
            self.absorbed(finding).advance_keeps_calm();
        }
    }

    proof fn fail_keeps_calm(self)
        ensures
            self.is_calm() ==> self.fail().is_calm(),
        decreases self.frames.len(), 1nat,
    {
        if self.frames.len() > 0 {
            self.marked().advance_keeps_calm();
        }
    }

    proof fn advance_keeps_calm(self)
        ensures
            self.is_calm() ==> self.advance().is_calm(),
        decreases self.frames.len(), 0nat,
    {
        if self.frames.len() > 0 && self.frames.last().items.len() == 0 {
            if self.frames.last().failed {
                self.left().fail_keeps_calm();
            } else if let Some(finding) = self.frames.last().result(self.flags) {
                self.popped().settle_keeps_calm(finding);
            }
        }
    }

    /// An uninterrupted walk that nothing ever stops stays one.
    pub proof fn step_keeps_calm(self, world: World)
        requires
            self.is_calm(),
        ensures
            self.step(world).is_calm(),
    {
        match self.stage {
            StageView::Lookup(_) => {
                self.completed().settle_keeps_calm(Finding::Nothing);
            },
            StageView::Listing(job, own, outer) => {
                let frame = FrameView {
                    job,
                    own,
                    items: Seq::empty(),
                    children: Seq::empty(),
                    total: 0,
                    failed: false,
                    outer,
                };
                WalkView { frames: self.frames.push(frame), ..self }.advance_keeps_calm();
            },
            StageView::MetaGate(job, meta) => {
                let counted = WalkView {
                    seen: metadata::counted(self.seen, meta),
                    control: self.control.after_bytes(meta.size()),
                    ..self
                };
                self.completed().settle_keeps_calm(Finding::Nothing);
                counted.completed().settle_keeps_calm(job.leaf(self.flags, meta.size()));
            },
            StageView::EntriesGate => {
                self.advance_keeps_calm();
            },
            StageView::EntryGate => {
                WalkView {
                    frames: self.frames.drop_last().push(self.frames.last().rest()),
                    ..self
                }.advance_keeps_calm();
            },
            _ => {},
        }
    }
}

/// A signal that neither cancels nor is late lets the walk pass.
pub proof fn calm_signal_passes(walk: WalkView, now: u64)
    requires
        walk.at_gate(),
        !(walk.stage is Stopping),
        !walk.control.must_stop(walk.deadline, now),
    ensures
        walk.on_signal(false, now) == walk.passed(),
{
}

/// The size of all nodes of a completed scan together is the number of bytes that it counted, up to
/// the largest number, and it looked at and was done with every path that it let in.
pub proof fn completed_scan_adds_up(
    world: World,
    flags: ScanFlags,
    directories: Seq<PathView>,
    fuel: nat,
)
    ensures
        whole_scan(world, flags, directories, ScanControl::fresh(), fuel) matches Some((roots, tally))
            ==> {
            &&& tally.control.bytes == cap(scan_model::sizes(roots))
            &&& tally.control.visited == tally.control.admitted
            &&& tally.control.completed == tally.control.admitted
        },
{
    let env = ScanEnv { world, flags };
    let from = Tally { seen: Set::empty(), control: ScanControl::fresh(), answers: 0 };
    let (k, x) = env.roots_move(directories, Seq::empty(), from, fuel);
}

} // verus!
