//! What a scan comes to in a file system that holds still, stated over mathematical values.

use crate::control;
use crate::control::ScanControl;
use crate::metadata;
use crate::metadata::{FileKind, Lookup, Metadata};
use crate::paths::PathView;
use crate::rules;
use crate::rules::RuleView;
use crate::world::{ItemView, World};
use vstd::prelude::*;

verus! {

/// What to do with paths that the ignore rules exclude.
#[derive(Clone, Copy, Debug, PartialEq, Eq, Structural)]
pub enum IgnoredMode {
    /// Leave them out.
    Exclude,
    /// Keep them, an ignored directory as one node without children.
    Summarize,
}

/// The switches of a scan.
#[derive(Clone, Copy, Debug, PartialEq, Eq, Structural)]
pub struct ScanFlags {
    pub ignore_hidden: bool,
    pub full_path: bool,
    pub respect_gitignore: bool,
    pub ignored_mode: IgnoredMode,
    pub follow_symlinks: bool,
}

/// A node of a scanned tree.
pub struct NodeView {
    pub name: Seq<char>,
    pub path: PathView,
    pub size: u64,
    pub children: Seq<NodeView>,
    pub depth: u32,
    pub ignored: bool,
    pub collapsed: bool,
}

/// The sizes of all nodes of a list together.
pub open spec fn sizes(nodes: Seq<NodeView>) -> nat
    decreases nodes.len(),
{
    if nodes.len() == 0 {
        0
    } else {
        sizes(nodes.drop_last()) + nodes.last().size as nat
    }
}

/// A path that a scan has let in.
pub struct JobView {
    pub path: PathView,
    pub depth: u32,
    pub ignored: bool,
    pub collapsed: bool,
    /// Whether the path lies inside a collapsed directory, so that only its size counts.
    pub inner: bool,
}

/// What a path comes to once it is done with.
pub enum Finding {
    /// It does not count.
    Nothing,
    Node(NodeView),
    /// Inside a collapsed directory, the size of everything at and below the path.
    Size(u64),
}

/// What becomes of an entry.
pub enum EntryPlan {
    Skip,
    Visit(JobView),
    /// It would be deeper than depths are counted.
    TooDeep,
}

impl JobView {
    pub open spec fn root(path: PathView) -> JobView {
        JobView { path, depth: 0, ignored: false, collapsed: false, inner: false }
    }

    /// Whether only the sizes of what lies below the path count.
    pub open spec fn summed(self) -> bool {
        self.collapsed || self.inner
    }

    /// Whether the ignore file of the directory counts.
    pub open spec fn reads_rules(self, flags: ScanFlags) -> bool {
        flags.respect_gitignore && !self.summed()
    }

    pub open spec fn node(self, flags: ScanFlags, size: u64, children: Seq<NodeView>) -> NodeView {
        NodeView {
            name: self.path.display_name(flags.full_path),
            path: self.path,
            size,
            children,
            depth: self.depth,
            ignored: self.ignored,
            collapsed: self.collapsed,
        }
    }

    /// What a path that is not a directory comes to.
    pub open spec fn leaf(self, flags: ScanFlags, size: u64) -> Finding {
        if self.inner {
            Finding::Size(size)
        } else {
            Finding::Node(self.node(flags, size, Seq::empty()))
        }
    }

    /// What becomes of an entry of the directory. Where only sizes count every entry that can be read
    /// is visited. Elsewhere hidden entries and ignored entries are left out when that is asked for,
    /// and an ignored directory that is kept is collapsed.
    pub open spec fn plan(self, flags: ScanFlags, item: ItemView, rules: Seq<RuleView>) -> EntryPlan {
        match item {
            ItemView::Unreadable => EntryPlan::Skip,
            ItemView::Entry { path, kind } => {
                if self.summed() {
                    EntryPlan::Visit(
                        JobView {
                            path,
                            depth: self.depth,
                            ignored: false,
                            collapsed: false,
                            inner: true,
                        },
                    )
                } else {
                    match kind {
                        None => EntryPlan::Skip,
                        Some(kind) => {
                            let is_dir = kind == FileKind::Directory;
                            let ignored = flags.respect_gitignore && rules::ignored_by(
                                rules,
                                path.bytes,
                                is_dir,
                            );
                            if flags.ignore_hidden && path.is_hidden() {
                                EntryPlan::Skip
                            } else if ignored && flags.ignored_mode == IgnoredMode::Exclude {
                                EntryPlan::Skip
                            } else if is_dir && self.depth == u32::MAX {
                                EntryPlan::TooDeep
                            } else {
                                EntryPlan::Visit(
                                    JobView {
                                        path,
                                        depth: if is_dir {
                                            (self.depth + 1) as u32
                                        } else {
                                            self.depth
                                        },
                                        ignored,
                                        collapsed: ignored && is_dir,
                                        inner: false,
                                    },
                                )
                            }
                        },
                    }
                }
            },
        }
    }
}

/// A directory whose entries are being gone through.
pub struct FrameView {
    pub job: JobView,
    /// The size of the directory itself.
    pub own: u64,
    /// The entries that are left.
    pub items: Seq<ItemView>,
    /// The nodes found so far.
    pub children: Seq<NodeView>,
    /// The sizes found so far, where only sizes count.
    pub total: u64,
    /// Whether an entry failed.
    pub failed: bool,
    /// How many ignore files are in force around the directory.
    pub outer: nat,
}

impl FrameView {
    pub open spec fn rest(self) -> FrameView {
        FrameView { items: self.items.drop_first(), ..self }
    }

    pub open spec fn absorb(self, finding: Finding) -> FrameView {
        match finding {
            Finding::Nothing => self,
            Finding::Node(node) => FrameView { children: self.children.push(node), ..self },
            Finding::Size(size) => FrameView { total: control::capped(self.total, size), ..self },
        }
    }

    /// What the directory comes to. The sizes of child nodes are added up exactly, so there is no
    /// answer where they are too many for a number.
    pub open spec fn result(self, flags: ScanFlags) -> Option<Finding> {
        if self.job.inner {
            Some(Finding::Size(control::capped(self.own, self.total)))
        } else if self.job.collapsed {
            Some(
                Finding::Node(
                    self.job.node(flags, control::capped(self.own, self.total), Seq::empty()),
                ),
            )
        } else if sizes(self.children) > u64::MAX {
            None
        } else {
            Some(
                Finding::Node(
                    self.job.node(
                        flags,
                        control::capped(self.own, sizes(self.children) as u64),
                        self.children,
                    ),
                ),
            )
        }
    }
}

/// What a scan carries along: the files that have been counted, the counters, and the number of
/// answers that it took.
pub struct Tally {
    pub seen: Set<(u64, u64)>,
    pub control: ScanControl,
    pub answers: nat,
}

impl Tally {
    pub open spec fn answered(self, times: nat) -> Tally {
        Tally { answers: self.answers + times, ..self }
    }

    pub open spec fn visited(self) -> Tally {
        Tally { control: self.control.after_visit(), ..self }
    }

    pub open spec fn admitted(self) -> Tally {
        Tally { control: self.control.after_admission(), ..self }
    }

    pub open spec fn completed(self) -> Tally {
        Tally { control: self.control.after_completion(), ..self }
    }

    pub open spec fn counted(self, meta: Metadata) -> Tally {
        Tally {
            seen: metadata::counted(self.seen, meta),
            control: self.control.after_bytes(meta.size()),
            ..self
        }
    }
}

/// A file system that holds still, and the switches under which it is scanned.
///
/// The functions below say what a scan of it comes to when it is not interrupted. They go down at
/// most `fuel` levels, and give `None` where that is not enough, where the sizes of a directory's
/// children do not fit a number, or where a depth does not.
pub struct ScanEnv {
    pub world: World,
    pub flags: ScanFlags,
}

impl ScanEnv {
    /// What a path comes to.
    pub open spec fn scan_job(
        self,
        job: JobView,
        rules: Seq<RuleView>,
        tally: Tally,
        fuel: nat,
    ) -> Option<(Finding, Tally)>
        decreases fuel, 5nat, 0nat,
    {
        if fuel == 0 {
            None
        } else {
            self.looked_up(
                job,
                (self.world.lookup)(job.path),
                rules,
                tally.answered(2).visited(),
                fuel,
            )
        }
    }

    /// What it comes to by what was found under the path.
    pub open spec fn looked_up(
        self,
        job: JobView,
        lookup: Lookup,
        rules: Seq<RuleView>,
        tally: Tally,
        fuel: nat,
    ) -> Option<(Finding, Tally)>
        decreases fuel, 4nat, 0nat,
    {
        match lookup.effective(self.flags.follow_symlinks) {
            None => Some((Finding::Nothing, tally.completed())),
            Some(meta) => self.identified(job, meta, rules, tally.answered(1), fuel),
        }
    }

    /// What it comes to by its metadata. A file that has been counted already does not count again.
    pub open spec fn identified(
        self,
        job: JobView,
        meta: Metadata,
        rules: Seq<RuleView>,
        tally: Tally,
        fuel: nat,
    ) -> Option<(Finding, Tally)>
        decreases fuel, 3nat, 0nat,
    {
        if metadata::is_counted(tally.seen, meta) {
            Some((Finding::Nothing, tally.completed()))
        } else if !meta.is_dir() {
            Some((job.leaf(self.flags, meta.size()), tally.counted(meta).completed()))
        } else if job.reads_rules(self.flags) {
            let lines = (self.world.ignore_file)(job.path);
            self.opened(
                job,
                meta.size(),
                rules.len(),
                rules::rules_inside(rules, job.path.bytes, lines),
                tally.counted(meta).answered(1),
                fuel,
            )
        } else {
            self.opened(
                job,
                meta.size(),
                rules.len(),
                rules,
                tally.counted(meta).answered(
                    if job.summed() {
                        1
                    } else {
                        0
                    },
                ),
                fuel,
            )
        }
    }

    /// What a directory comes to in which `rules` are in force.
    pub open spec fn opened(
        self,
        job: JobView,
        own: u64,
        outer: nat,
        rules: Seq<RuleView>,
        tally: Tally,
        fuel: nat,
    ) -> Option<(Finding, Tally)>
        decreases fuel, 2nat, 0nat,
    {
        let frame = FrameView {
            job,
            own,
            items: Seq::empty(),
            children: Seq::empty(),
            total: 0,
            failed: false,
            outer,
        };
        match (self.world.listing)(job.path) {
            None => self.filled(frame, rules, tally.answered(1), fuel),
            Some(items) => self.filled(FrameView { items, ..frame }, rules, tally.answered(2), fuel),
        }
    }

    /// What a directory comes to of which some entries are left. There is no answer for one of which
    /// an entry failed; none ever does where nothing interferes.
    pub open spec fn filled(
        self,
        frame: FrameView,
        rules: Seq<RuleView>,
        tally: Tally,
        fuel: nat,
    ) -> Option<(Finding, Tally)>
        decreases fuel, 0nat, frame.items.len(),
    {
        if frame.failed {
            None
        } else if frame.items.len() == 0 {
            match frame.result(self.flags) {
                None => None,
                Some(finding) => Some((finding, tally.completed())),
            }
        } else {
            match frame.job.plan(self.flags, frame.items[0], rules) {
                EntryPlan::Skip => self.filled(frame.rest(), rules, tally.answered(1), fuel),
                EntryPlan::TooDeep => None,
                EntryPlan::Visit(job) => if fuel == 0 {
                    None
                } else {
                    match self.scan_job(
                        job,
                        rules,
                        tally.answered(2).admitted(),
                        (fuel - 1) as nat,
                    ) {
                        None => None,
                        Some((finding, after)) => self.filled(
                            frame.rest().absorb(finding),
                            rules,
                            after,
                            fuel,
                        ),
                    }
                },
            }
        }
    }

    /// The nodes that the directories still to be scanned come to, after those found so far.
    pub open spec fn scan_roots(
        self,
        directories: Seq<PathView>,
        roots: Seq<NodeView>,
        tally: Tally,
        fuel: nat,
    ) -> Option<(Seq<NodeView>, Tally)>
        decreases directories.len(),
    {
        if directories.len() == 0 {
            Some((roots, tally))
        } else {
            match self.scan_job(
                JobView::root(directories[0]),
                Seq::empty(),
                tally.answered(1).admitted(),
                fuel,
            ) {
                None => None,
                Some((finding, after)) => self.scan_roots(
                    directories.drop_first(),
                    with_node(roots, finding),
                    after,
                    fuel,
                ),
            }
        }
    }
}

/// The nodes with the one that was found, if one was.
pub open spec fn with_node(nodes: Seq<NodeView>, finding: Finding) -> Seq<NodeView> {
    match finding {
        Finding::Node(node) => nodes.push(node),
        _ => nodes,
    }
}

} // verus!
