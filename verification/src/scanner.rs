//! Scanning directories into trees of nodes with their sizes on disk.

use crate::clean_laws;
use crate::control;
use crate::control::{ScanControl, ScanProgress};
use crate::metadata;
use crate::metadata::{FileKind, Lookup, Metadata, SeenInodes};
use crate::paths;
use crate::rules;
use crate::rules::{IgnoreFile, RuleSet, RuleView};
use crate::scan_model;
use crate::scan_model::{EntryPlan, Finding, FrameView, IgnoredMode, JobView, NodeView, ScanFlags};
use crate::scan_steps::{Ending, StageView, WalkView};
use crate::world;
use crate::world::{DirItem, ItemView};
use std::path::PathBuf;
use vstd::prelude::*;

verus! {

/// What to scan, and how.
#[derive(Clone, Debug)]
pub struct ScanOptions {
    pub directories: Vec<PathBuf>,
    pub ignore_hidden: bool,
    pub full_path: bool,
    pub respect_gitignore: bool,
    pub ignored_mode: IgnoredMode,
    /// Treat a symbolic link as what it leads to.
    pub follow_symlinks: bool,
}

impl ScanOptions {
    pub open spec fn flags(self) -> ScanFlags {
        ScanFlags {
            ignore_hidden: self.ignore_hidden,
            full_path: self.full_path,
            respect_gitignore: self.respect_gitignore,
            ignored_mode: self.ignored_mode,
            follow_symlinks: self.follow_symlinks,
        }
    }
}

/// A file or directory with everything below it.
#[derive(Debug, PartialEq, Eq)]
pub struct ScanNode {
    pub name: String,
    pub path: PathBuf,
    pub size: u64,
    pub children: Vec<ScanNode>,
    pub depth: u32,
    pub ignored: bool,
    pub collapsed: bool,
}

impl ScanNode {
    pub open spec fn deep(self) -> NodeView
        decreases self,
    {
        NodeView {
            name: self.name@,
            path: paths::path_view(self.path),
            size: self.size,
            children: node_views(self.children@),
            depth: self.depth,
            ignored: self.ignored,
            collapsed: self.collapsed,
        }
    }
}

/// The nodes of a list, each with everything below it.
pub open spec fn node_views(nodes: Seq<ScanNode>) -> Seq<NodeView>
    decreases nodes,
{
    if nodes.len() == 0 {
        Seq::empty()
    } else {
        node_views(nodes.drop_last()).push(nodes.last().deep())
    }
}

proof fn node_views_push(nodes: Seq<ScanNode>, node: ScanNode)
    ensures
        node_views(nodes.push(node)) == node_views(nodes).push(node.deep()),
{
    assert(nodes.push(node).drop_last() =~= nodes);
}

impl Clone for ScanNode {
    fn clone(&self) -> (copy: ScanNode)
        ensures
            copy.deep() == self.deep(),
        decreases self,
    {
        let ghost given = self.children@;
        let mut children: Vec<ScanNode> = Vec::new();
        let mut i: usize = 0;
        assert(given.take(0) =~= Seq::<ScanNode>::empty());
        while i < self.children.len()
            invariant
                i <= given.len(),
                given == self.children@,
                node_views(children@) == node_views(given.take(i as int)),
            decreases given.len() - i,
        {
            let child = &self.children[i];
            assert(decreases_to!(self => child));
            let copied = child.clone();
            proof {
                node_views_push(children@, copied);
                node_views_push(given.take(i as int), *child);
                assert(given.take(i + 1) =~= given.take(i as int).push(*child));
            }
            children.push(copied);
            i = i + 1;
        }
        assert(given.take(i as int) =~= given);
        ScanNode {
            name: self.name.clone(),
            path: self.path.clone(),
            size: self.size,
            children,
            depth: self.depth,
            ignored: self.ignored,
            collapsed: self.collapsed,
        }
    }
}

/// A path that the scan has let in.
pub struct Job {
    path: PathBuf,
    depth: u32,
    ignored: bool,
    collapsed: bool,
    inner: bool,
}

impl View for Job {
    type V = JobView;

    closed spec fn view(&self) -> JobView {
        JobView {
            path: paths::path_view(self.path),
            depth: self.depth,
            ignored: self.ignored,
            collapsed: self.collapsed,
            inner: self.inner,
        }
    }
}

/// What a path came to.
enum Found {
    Nothing,
    Node(ScanNode),
    Size(u64),
}

impl Found {
    spec fn deep(self) -> Finding {
        match self {
            Found::Nothing => Finding::Nothing,
            Found::Node(node) => Finding::Node(node.deep()),
            Found::Size(size) => Finding::Size(size),
        }
    }
}

/// What becomes of an entry.
enum Plan {
    Skip,
    Visit(Job),
    TooDeep,
}

impl Plan {
    spec fn deep(self) -> EntryPlan {
        match self {
            Plan::Skip => EntryPlan::Skip,
            Plan::Visit(job) => EntryPlan::Visit(job@),
            Plan::TooDeep => EntryPlan::TooDeep,
        }
    }
}

impl Job {
    fn root(path: PathBuf) -> (job: Job)
        ensures
            job@ == JobView::root(paths::path_view(path)),
    {
        Job { path, depth: 0, ignored: false, collapsed: false, inner: false }
    }

    fn summed(&self) -> (summed: bool)
        ensures
            summed == self@.summed(),
    {
        self.collapsed || self.inner
    }

    fn node(self, flags: ScanFlags, size: u64, children: Vec<ScanNode>) -> (node: ScanNode)
        ensures
            node.deep() == self@.node(flags, size, node_views(children@)),
    {
        ScanNode {
            name: paths::display_name(&self.path, flags.full_path),
            path: self.path,
            size,
            children,
            depth: self.depth,
            ignored: self.ignored,
            collapsed: self.collapsed,
        }
    }

    fn leaf(self, flags: ScanFlags, size: u64) -> (found: Found)
        ensures
            found.deep() == self@.leaf(flags, size),
    {
        if self.inner {
            Found::Size(size)
        } else {
            Found::Node(self.node(flags, size, Vec::new()))
        }
    }

    fn plan(&self, flags: ScanFlags, item: DirItem, rules: &Vec<RuleSet>) -> (plan: Plan)
        requires
            rules::all_wf(rules@),
        ensures
            plan.deep() == self@.plan(flags, item@, rules::rule_views(rules@)),
    {
        match item {
            DirItem::Unreadable => Plan::Skip,
            DirItem::Entry { path, kind } => {
                if self.summed() {
                    return Plan::Visit(
                        Job { path, depth: self.depth, ignored: false, collapsed: false, inner: true },
                    );
                }
                let is_dir = match kind {
                    None => {
                        return Plan::Skip;
                    },
                    Some(kind) => kind == FileKind::Directory,
                };
                if flags.ignore_hidden && paths::is_hidden(&path) {
                    return Plan::Skip;
                }
                let ignored = flags.respect_gitignore && rules::is_gitignored(&path, is_dir, rules);
                if ignored && flags.ignored_mode == IgnoredMode::Exclude {
                    return Plan::Skip;
                }
                if is_dir && self.depth == u32::MAX {
                    return Plan::TooDeep;
                }
                let depth: u32 = if is_dir {
                    self.depth + 1
                } else {
                    self.depth
                };
                Plan::Visit(
                    Job { path, depth, ignored, collapsed: ignored && is_dir, inner: false },
                )
            },
        }
    }
}

/// A directory whose entries are being gone through.
pub struct Frame {
    job: Job,
    own: u64,
    /// The entries that are left, the next one at the back.
    items: Vec<DirItem>,
    children: Vec<ScanNode>,
    total: u64,
    failed: bool,
    outer: usize,
}

impl View for Frame {
    type V = FrameView;

    closed spec fn view(&self) -> FrameView {
        FrameView {
            job: self.job@,
            own: self.own,
            items: world::item_views(self.items@.reverse()),
            children: node_views(self.children@),
            total: self.total,
            failed: self.failed,
            outer: self.outer as nat,
        }
    }
}

proof fn sizes_are_added(nodes: Seq<ScanNode>)
    ensures
        scan_model::sizes(node_views(nodes)) == clean_laws::sum_of(
            nodes.map_values(|node: ScanNode| node.size),
        ),
    decreases nodes.len(),
{
    if nodes.len() > 0 {
        let sizes = nodes.map_values(|node: ScanNode| node.size);
        let earlier = nodes.drop_last();
        sizes_are_added(earlier);
        assert(sizes.drop_last() =~= earlier.map_values(|node: ScanNode| node.size));
        assert(node_views(nodes).drop_last() =~= node_views(earlier));
        assert(node_views(nodes).last() == nodes.last().deep());
        assert(nodes.last().deep().size == nodes.last().size);
    }
}

/// The sizes of all nodes together, if they fit a number.
pub fn total_size(nodes: &Vec<ScanNode>) -> (total: Option<u64>)
    ensures
        total == (if scan_model::sizes(node_views(nodes@)) > u64::MAX {
            None
        } else {
            Some(scan_model::sizes(node_views(nodes@)) as u64)
        }),
        total matches Some(sum) ==> sum == clean_laws::sum_of(
            nodes@.map_values(|node: ScanNode| node.size),
        ),
        total is None ==> clean_laws::sum_of(nodes@.map_values(|node: ScanNode| node.size))
            > u64::MAX,
{
    proof {
        sizes_are_added(nodes@);
    }
    let mut total: u64 = 0;
    let mut i: usize = 0;
    assert(nodes@.take(0) =~= Seq::<ScanNode>::empty());
    while i < nodes.len()
        invariant
            i <= nodes@.len(),
            total == scan_model::sizes(node_views(nodes@.take(i as int))),
        decreases nodes@.len() - i,
    {
        proof {
            assert(nodes@.take(i + 1) =~= nodes@.take(i as int).push(nodes@[i as int]));
            node_views_push(nodes@.take(i as int), nodes@[i as int]);
            let views = node_views(nodes@.take(i + 1));
            assert(views.drop_last() =~= node_views(nodes@.take(i as int)));
        }
        match total.checked_add(nodes[i].size) {
            Some(sum) => {
                total = sum;
            },
            None => {
                proof {
                    sizes_are_added(nodes@);
                    sizes_grow(nodes@, i + 1);
                }
                return None;
            },
        }
        i = i + 1;
    }
    assert(nodes@.take(i as int) =~= nodes@);
    Some(total)
}

/// A part of a list is no larger than the whole.
proof fn sizes_grow(nodes: Seq<ScanNode>, part: int)
    requires
        0 <= part <= nodes.len(),
    ensures
        scan_model::sizes(node_views(nodes.take(part))) <= scan_model::sizes(node_views(nodes)),
    decreases nodes.len() - part,
{
    if part < nodes.len() {
        sizes_grow(nodes, part + 1);
        assert(nodes.take(part + 1) =~= nodes.take(part).push(nodes[part]));
        node_views_push(nodes.take(part), nodes[part]);
        let views = node_views(nodes.take(part + 1));
        assert(views.drop_last() =~= node_views(nodes.take(part)));
    } else {
        assert(nodes.take(part) =~= nodes);
    }
}

impl Frame {
    fn absorb(&mut self, found: Found)
        ensures
            final(self)@ == old(self)@.absorb(found.deep()),
    {
        match found {
            Found::Nothing => {},
            Found::Node(node) => {
                proof {
                    node_views_push(self.children@, node);
                }
                self.children.push(node);
            },
            Found::Size(size) => {
                self.total = self.total.saturating_add(size);
            },
        }
    }

    /// Takes the next entry out.
    fn next_item(&mut self) -> (item: DirItem)
        requires
            old(self)@.items.len() > 0,
        ensures
            item@ == old(self)@.items[0],
            final(self)@ == old(self)@.rest(),
    {
        let ghost before = self.items@;
        match self.items.pop() {
            Some(item) => {
                assert(world::item_views(self.items@.reverse()) =~= world::item_views(
                    before.reverse(),
                ).drop_first());
                item
            },
            None => DirItem::Unreadable,
        }
    }

    fn result(self, flags: ScanFlags) -> (found: Option<Found>)
        ensures
            found is Some <==> self@.result(flags) is Some,
            found matches Some(f) ==> self@.result(flags) == Some(f.deep()),
    {
        if self.job.inner {
            return Some(Found::Size(self.own.saturating_add(self.total)));
        }
        if self.job.collapsed {
            let size: u64 = self.own.saturating_add(self.total);
            return Some(Found::Node(self.job.node(flags, size, Vec::new())));
        }
        match total_size(&self.children) {
            None => None,
            Some(total) => {
                let size: u64 = self.own.saturating_add(total);
                Some(Found::Node(self.job.node(flags, size, self.children)))
            },
        }
    }
}

/// Why a scan failed.
#[derive(Clone, Debug, PartialEq, Eq)]
pub struct ScanError {
    pub message: String,
}

/// What a scan that ended comes to. A scan that was stopped gives no nodes.
#[derive(Debug)]
pub enum ScanOutcome {
    Completed { roots: Vec<ScanNode>, progress: ScanProgress },
    Cancelled { progress: ScanProgress },
    Deadline { progress: ScanProgress },
    Failed(ScanError),
}

/// What a failed scan says.
pub const POISONED: &'static str = "scan inode state was poisoned";

/// What a walk waits for.
pub enum ScanRequest<'a> {
    /// A look at the cancel flag and the clock; answered by `signal`.
    Signal,
    /// The same, before a file that was looked up is counted; answered by `signal`, or by `poisoned`
    /// where the state that the scan shares with others was lost.
    Count,
    /// What is found under the path, with what a symbolic link leads to where links are followed;
    /// answered by `looked_up`.
    Lookup { path: &'a PathBuf, follow_symlinks: bool },
    /// The ignore file in the directory; answered by `ignore_file`.
    IgnoreFile(&'a PathBuf),
    /// The entries of the directory; answered by `listed`.
    Listing(&'a PathBuf),
    /// Nothing: the scan has ended, and `outcome` says how.
    Ended,
    /// Nothing: the scan cannot go on, because a sum or a depth does not fit a number.
    Overflow,
}

impl<'a> ScanRequest<'a> {
    /// Whether this is what a walk in the given state waits for.
    pub open spec fn is_for(self, walk: WalkView) -> bool {
        match self {
            ScanRequest::Signal => walk.at_gate() && !(walk.stage is MetaGate),
            ScanRequest::Count => walk.stage is MetaGate,
            ScanRequest::Lookup { path, follow_symlinks } => {
                &&& walk.stage matches StageView::Lookup(job)
                &&& job.path == paths::path_view(*path)
                &&& follow_symlinks == walk.flags.follow_symlinks
            },
            ScanRequest::IgnoreFile(path) => {
                &&& walk.stage matches StageView::Rules(job, _)
                &&& job.path == paths::path_view(*path)
            },
            ScanRequest::Listing(path) => {
                &&& walk.stage matches StageView::Listing(job, _, _)
                &&& job.path == paths::path_view(*path)
            },
            ScanRequest::Ended => walk.stage is Done,
            ScanRequest::Overflow => walk.stage is Overflow,
        }
    }
}

enum Stage {
    RootGate,
    EnterGate(Job),
    Lookup(Job),
    MetaGate(Job, Metadata),
    Rules(Job, u64),
    ListGate(Job, u64, usize),
    Listing(Job, u64, usize),
    EntriesGate,
    EntryGate,
    AdmitGate(Job),
    Stopping,
    Done(Ending),
    Overflow,
}

impl Stage {
    spec fn deep(self) -> StageView {
        match self {
            Stage::RootGate => StageView::RootGate,
            Stage::EnterGate(job) => StageView::EnterGate(job@),
            Stage::Lookup(job) => StageView::Lookup(job@),
            Stage::MetaGate(job, meta) => StageView::MetaGate(job@, meta),
            Stage::Rules(job, own) => StageView::Rules(job@, own),
            Stage::ListGate(job, own, outer) => StageView::ListGate(job@, own, outer as nat),
            Stage::Listing(job, own, outer) => StageView::Listing(job@, own, outer as nat),
            Stage::EntriesGate => StageView::EntriesGate,
            Stage::EntryGate => StageView::EntryGate,
            Stage::AdmitGate(job) => StageView::AdmitGate(job@),
            Stage::Stopping => StageView::Stopping,
            Stage::Done(ending) => StageView::Done(ending),
            Stage::Overflow => StageView::Overflow,
        }
    }
}

/// A scan under way. It waits for one answer at a time.
pub struct ScanWalk {
    flags: ScanFlags,
    /// The directories that are still to be scanned, the next one at the back.
    directories: Vec<PathBuf>,
    roots: Vec<ScanNode>,
    frames: Vec<Frame>,
    rules: Vec<RuleSet>,
    seen: SeenInodes,
    control: ScanControl,
    deadline: Option<u64>,
    stage: Stage,
}

pub open spec fn frame_views(frames: Seq<Frame>) -> Seq<FrameView> {
    Seq::new(frames.len(), |i: int| frames[i]@)
}

impl View for ScanWalk {
    type V = WalkView;

    closed spec fn view(&self) -> WalkView {
        WalkView {
            flags: self.flags,
            directories: paths::path_views(self.directories@.reverse()),
            roots: node_views(self.roots@),
            frames: frame_views(self.frames@),
            rules: rules::rule_views(self.rules@),
            seen: self.seen@,
            control: self.control,
            deadline: self.deadline,
            stage: self.stage.deep(),
        }
    }
}

impl ScanWalk {
    pub closed spec fn wf(self) -> bool {
        &&& rules::all_wf(self.rules@)
        &&& self@.wf()
    }

    /// What the walk waits for.
    pub fn request(&self) -> (request: ScanRequest<'_>)
        ensures
            request.is_for(self@),
    {
        match &self.stage {
            Stage::Lookup(job) => ScanRequest::Lookup {
                path: &job.path,
                follow_symlinks: self.flags.follow_symlinks,
            },
            Stage::MetaGate(_, _) => ScanRequest::Count,
            Stage::Rules(job, _) => ScanRequest::IgnoreFile(&job.path),
            Stage::Listing(job, _, _) => ScanRequest::Listing(&job.path),
            Stage::Done(_) => ScanRequest::Ended,
            Stage::Overflow => ScanRequest::Overflow,
            _ => ScanRequest::Signal,
        }
    }

    /// The cancel flag and the counters of the scan, as they stand.
    pub fn control(&self) -> (control: &ScanControl)
        ensures
            *control == self@.control,
    {
        &self.control
    }

    /// How far the scan has come.
    pub fn progress(&self) -> (progress: ScanProgress)
        ensures
            progress == self@.control.snapshot(),
    {
        self.control.progress()
    }

    fn next_root(self) -> (walk: ScanWalk)
        requires
            rules::all_wf(self.rules@),
        ensures
            rules::all_wf(walk.rules@),
            walk@ == self@.next_root(),
    {
        let mut walk = self;
        walk.stage = if walk.directories.len() == 0 {
            Stage::Done(Ending::Completed)
        } else {
            Stage::RootGate
        };
        walk
    }

    fn abandoned(self) -> (walk: ScanWalk)
        ensures
            rules::all_wf(walk.rules@),
            walk@ == self@.abandoned(),
    {
        let mut walk = self;
        walk.frames.clear();
        walk.rules.clear();
        walk.stage = Stage::Overflow;
        assert(walk@.frames =~= Seq::<FrameView>::empty());
        assert(walk@.rules =~= Seq::<RuleView>::empty());
        walk
    }

    /// Where a path takes the walk that is done with and came to `found`, or failed.
    spec fn taken(walk: WalkView, found: Option<Found>) -> WalkView {
        match found {
            Some(found) => walk.settle(found.deep()),
            None => walk.fail(),
        }
    }

    /// One of the directories that were asked for is done with and came to `found`, or failed.
    fn take_up_root(self, found: Option<Found>) -> (walk: ScanWalk)
        requires
            rules::all_wf(self.rules@),
            self@.frames.len() == 0,
        ensures
            rules::all_wf(walk.rules@),
            walk@ == Self::taken(self@, found),
    {
        let mut walk = self;
        match found {
            None => {
                walk.stage = Stage::Done(Ending::Failed);
                return walk;
            },
            Some(Found::Node(node)) => {
                proof {
                    node_views_push(walk.roots@, node);
                }
                walk.roots.push(node);
            },
            Some(_) => {},
        }
        walk.next_root()
    }

    /// Leaves the innermost directory, of whose entries none is left; `frame` is what was kept of it.
    /// Gives what the directory came to, or that it failed, unless the walk cannot go on.
    fn leave(self, frame: Frame) -> (left: Result<(ScanWalk, Option<Found>), ScanWalk>)
        requires
            rules::all_wf(self.rules@),
            frame.items@.len() == 0,
            frame.outer <= self@.rules.len(),
        ensures
            left matches Err(walk) ==> {
                &&& rules::all_wf(walk.rules@)
                &&& walk@ == (WalkView { frames: self@.frames.push(frame@), ..self@ }).advance()
            },
            left matches Ok((walk, found)) ==> {
                &&& rules::all_wf(walk.rules@)
                &&& walk.frames@.len() == self.frames@.len()
                &&& walk@.frames == self@.frames
                &&& walk@.rules == self@.rules.take(frame.outer as int)
                &&& Self::taken(walk@, found) == (WalkView {
                    frames: self@.frames.push(frame@),
                    ..self@
                }).advance()
            },
    {
        let ghost inside = WalkView { frames: self@.frames.push(frame@), ..self@ };
        assert(inside.frames.drop_last() =~= self@.frames);
        assert(inside.frames.last() == frame@);
        assert(inside.frames.last().items =~= Seq::empty());
        let mut walk = self;
        let outer: usize = frame.outer;
        let failed = frame.failed;
        let result = frame.result(walk.flags);
        if !failed && result.is_none() {
            let walk = walk.abandoned();
            return Err(walk);
        }
        walk.rules.truncate(outer);
        assert(walk@.rules =~= self@.rules.take(outer as int));
        if failed {
            assert(walk@ == inside.left());
            Ok((walk, None))
        } else {
            walk.control.complete();
            assert(walk@ == inside.popped());
            Ok((walk, result))
        }
    }

    /// A path is done with and came to `found`, or failed.
    #[verifier::spinoff_prover]
    fn take_up(self, found: Option<Found>) -> (walk: ScanWalk)
        requires
            rules::all_wf(self.rules@),
            self@.nested(),
            self@.balanced(),
        ensures
            rules::all_wf(walk.rules@),
            walk@ == Self::taken(self@, found),
    {
        let mut walk = self;
        let mut current = found;
        loop
            invariant
                rules::all_wf(walk.rules@),
                walk@.nested(),
                walk@.balanced(),
                Self::taken(walk@, current) == Self::taken(self@, found),
            decreases walk.frames@.len(),
        {
            let ghost before = walk@;
            let ghost result = current;
            match walk.frames.pop() {
                None => {
                    assert(walk@.frames =~= before.frames);
                    return walk.take_up_root(current);
                },
                Some(mut frame) => {
                    let ghost inside = match result {
                        Some(found) => before.absorbed(found.deep()),
                        None => before.marked(),
                    };
                    match current {
                        None => {
                            frame.failed = true;
                        },
                        Some(found) => {
                            frame.absorb(found);
                        },
                    }
                    assert(inside.frames =~= before.frames.drop_last().push(frame@));
                    assert(Self::taken(before, result) == inside.advance());
                    assert(frame_views(walk.frames@) =~= before.frames.drop_last());
                    if frame.items.len() > 0 {
                        walk.frames.push(frame);
                        assert(frame_views(walk.frames@) =~= inside.frames);
                        walk.stage = Stage::EntryGate;
                        assert(inside.frames.last().items.len() > 0);
                        return walk;
                    }
                    assert(before.frames.last().outer == frame.outer);
                    match walk.leave(frame) {
                        Err(walk) => {
                            return walk;
                        },
                        Ok((left, next)) => {
                            walk = left;
                            current = next;
                        },
                    }
                },
            }
        }
    }

    /// A path is done with and came to `found`.
    fn settle(self, found: Found) -> (walk: ScanWalk)
        requires
            rules::all_wf(self.rules@),
            self@.nested(),
            self@.balanced(),
        ensures
            rules::all_wf(walk.rules@),
            walk@ == self@.settle(found.deep()),
    {
        self.take_up(Some(found))
    }

    /// On to the next entry of the innermost directory, or out of it.
    fn advance(self) -> (walk: ScanWalk)
        requires
            rules::all_wf(self.rules@),
            self@.frames.len() > 0,
            self@.nested(),
        ensures
            rules::all_wf(walk.rules@),
            walk@ == self@.advance(),
    {
        assert(self@.absorbed(Finding::Nothing).frames =~= self@.frames);
        self.settle(Found::Nothing)
    }

    fn identified(self, job: Job, meta: Metadata) -> (walk: ScanWalk)
        requires
            rules::all_wf(self.rules@),
            self@.nested(),
            self@.balanced(),
        ensures
            rules::all_wf(walk.rules@),
            walk@ == self@.identified(job@, meta),
    {
        let mut walk = self;
        match metadata::unique_allocated_size(&meta, &mut walk.seen) {
            None => {
                assert(walk@.seen =~= self@.seen);
                walk.control.complete();
                walk.settle(Found::Nothing)
            },
            Some(own) => {
                walk.control.add_bytes(own);
                if meta.kind != FileKind::Directory {
                    walk.control.complete();
                    let found = job.leaf(walk.flags, own);
                    return walk.settle(found);
                }
                let outer: usize = walk.rules.len();
                walk.stage = if job.summed() {
                    Stage::ListGate(job, own, outer)
                } else if walk.flags.respect_gitignore {
                    Stage::Rules(job, own)
                } else {
                    Stage::Listing(job, own, outer)
                };
                walk
            },
        }
    }

    fn planned(self) -> (walk: ScanWalk)
        requires
            rules::all_wf(self.rules@),
            self@.frames.len() > 0,
            self@.frames.last().items.len() > 0,
            self@.nested(),
        ensures
            rules::all_wf(walk.rules@),
            walk@ == self@.planned(),
    {
        let mut walk = self;
        match walk.frames.pop() {
            None => walk,
            Some(mut frame) => {
                let item = frame.next_item();
                let plan = frame.job.plan(walk.flags, item, &walk.rules);
                walk.frames.push(frame);
                assert(walk@.frames =~= self@.frames.drop_last().push(self@.frames.last().rest()));
                match plan {
                    Plan::Skip => walk.advance(),
                    Plan::TooDeep => walk.abandoned(),
                    Plan::Visit(job) => {
                        walk.stage = Stage::AdmitGate(job);
                        walk
                    },
                }
            },
        }
    }

    fn passed(self) -> (walk: ScanWalk)
        requires
            self.wf(),
            self@.at_gate(),
            !(self@.stage is Stopping),
        ensures
            rules::all_wf(walk.rules@),
            walk@ == self@.passed(),
    {
        let mut walk = self;
        let mut stage = Stage::Stopping;
        std::mem::swap(&mut stage, &mut walk.stage);
        match stage {
            Stage::RootGate => {
                let ghost before = walk.directories@;
                if let Some(path) = walk.directories.pop() {
                    assert(walk@.directories =~= self@.directories.drop_first());
                    walk.control.record_admission();
                    walk.stage = Stage::EnterGate(Job::root(path));
                }
                walk
            },
            Stage::EnterGate(job) => {
                walk.control.visit();
                walk.stage = Stage::Lookup(job);
                walk
            },
            Stage::MetaGate(job, meta) => {
                proof {
                    self@.completed().settle_ignores_stage(StageView::Stopping, Finding::Nothing);
                    WalkView {
                        seen: metadata::counted(self@.seen, meta),
                        control: self@.control.after_bytes(meta.size()),
                        ..self@
                    }.completed().settle_ignores_stage(
                        StageView::Stopping,
                        job@.leaf(self@.flags, meta.size()),
                    );
                }
                walk.identified(job, meta)
            },
            Stage::ListGate(job, own, outer) => {
                walk.stage = Stage::Listing(job, own, outer);
                walk
            },
            Stage::EntriesGate => {
                proof {
                    self@.advance_ignores_stage(StageView::Stopping);
                }
                walk.advance()
            },
            Stage::EntryGate => {
                proof {
                    WalkView {
                        frames: self@.frames.drop_last().push(self@.frames.last().rest()),
                        ..self@
                    }.advance_ignores_stage(StageView::Stopping);
                }
                walk.planned()
            },
            Stage::AdmitGate(job) => {
                walk.control.record_admission();
                walk.stage = Stage::EnterGate(job);
                walk
            },
            _ => walk,
        }
    }

    /// Goes on after a look at the cancel flag and the clock: `cancel` says whether the scan was
    /// cancelled, `now` is the time on the clock that the deadline is told by.
    pub fn signal(self, cancel: bool, now: u64) -> (walk: ScanWalk)
        requires
            self.wf(),
            self@.at_gate(),
        ensures
            walk.wf(),
            walk@ == self@.on_signal(cancel, now),
    {
        proof {
            self@.steps_keep_wf(cancel, now, arbitrary(), arbitrary(), arbitrary());
        }
        let mut walk = self;
        if cancel {
            walk.control.cancel();
        }
        if let Stage::Stopping = walk.stage {
            walk.stage = Stage::Done(
                if walk.control.is_cancelled() {
                    Ending::Cancelled
                } else {
                    Ending::Deadline
                },
            );
            return walk;
        }
        if walk.control.should_stop(walk.deadline, now) {
            walk.stage = Stage::Stopping;
            return walk;
        }
        walk.passed()
    }

    /// Goes on after the path that was asked about has been looked up.
    pub fn looked_up(self, lookup: Lookup) -> (walk: ScanWalk)
        requires
            self.wf(),
            self@.stage is Lookup,
        ensures
            walk.wf(),
            walk@ == self@.on_lookup(lookup),
    {
        proof {
            self@.steps_keep_wf(false, 0, lookup, arbitrary(), arbitrary());
        }
        let mut walk = self;
        match metadata::effective_metadata(lookup, walk.flags.follow_symlinks) {
            None => {
                walk.control.complete();
                walk.settle(Found::Nothing)
            },
            Some(meta) => {
                let mut stage = Stage::Stopping;
                std::mem::swap(&mut stage, &mut walk.stage);
                if let Stage::Lookup(job) = stage {
                    walk.stage = Stage::MetaGate(job, meta);
                }
                walk
            },
        }
    }

    /// Goes on after a look at the cancel flag and the clock that followed a lookup, where the state
    /// that the scan shares with others was lost.
    pub fn poisoned(self, cancel: bool, now: u64) -> (walk: ScanWalk)
        requires
            self.wf(),
            self@.stage is MetaGate,
        ensures
            walk.wf(),
            walk@ == self@.on_poisoned(cancel, now),
    {
        let keyed = match &self.stage {
            Stage::MetaGate(_, meta) => metadata::inode_key(meta).is_some(),
            _ => false,
        };
        if !keyed || cancel || self.control.should_stop(self.deadline, now) {
            return self.signal(cancel, now);
        }
        proof {
            self@.steps_keep_wf(cancel, now, arbitrary(), arbitrary(), arbitrary());
        }
        self.take_up(None)
    }

    /// Goes on after the ignore file that was asked about has been read.
    pub fn ignore_file(self, file: IgnoreFile) -> (walk: ScanWalk)
        requires
            self.wf(),
            self@.stage is Rules,
        ensures
            walk.wf(),
            walk@ == self@.on_ignore_file(file.lines()),
    {
        proof {
            self@.steps_keep_wf(false, 0, arbitrary(), file.lines(), arbitrary());
        }
        let mut walk = self;
        let mut stage = Stage::Stopping;
        std::mem::swap(&mut stage, &mut walk.stage);
        if let Stage::Rules(job, own) = stage {
            let outer: usize = walk.rules.len();
            rules::append_gitignore(&job.path, file, &mut walk.rules);
            walk.stage = Stage::Listing(job, own, outer);
        }
        walk
    }

    /// Goes on after the entries of the directory that was asked about have been read.
    pub fn listed(self, listing: Option<Vec<DirItem>>) -> (walk: ScanWalk)
        requires
            self.wf(),
            self@.stage is Listing,
        ensures
            walk.wf(),
            walk@ == self@.on_listing(world::listing_view(listing)),
    {
        proof {
            self@.steps_keep_wf(false, 0, arbitrary(), arbitrary(), world::listing_view(listing));
        }
        let mut walk = self;
        let mut stage = Stage::Stopping;
        std::mem::swap(&mut stage, &mut walk.stage);
        if let Stage::Listing(job, own, outer) = stage {
            match listing {
                None => {
                    let frame = Frame {
                        job,
                        own,
                        items: Vec::new(),
                        children: Vec::new(),
                        total: 0,
                        failed: false,
                        outer,
                    };
                    assert(frame@.items =~= Seq::<ItemView>::empty());
                    walk.frames.push(frame);
                    assert(walk@.frames =~= self@.frames.push(frame@));
                    proof {
                        WalkView { frames: self@.frames.push(frame@), ..self@ }
                            .advance_ignores_stage(StageView::Stopping);
                    }
                    return walk.advance();
                },
                Some(items) => {
                    let ghost given = items@;
                    let frame = Frame {
                        job,
                        own,
                        items: world::reversed(items),
                        children: Vec::new(),
                        total: 0,
                        failed: false,
                        outer,
                    };
                    assert(frame.items@.reverse() =~= given);
                    walk.frames.push(frame);
                    assert(walk@.frames =~= self@.frames.push(frame@));
                    walk.stage = Stage::EntriesGate;
                },
            }
        }
        walk
    }

    /// What the scan comes to.
    pub fn outcome(self) -> (outcome: ScanOutcome)
        requires
            self@.stage is Done,
        ensures
            match self@.stage->Done_0 {
                Ending::Completed => {
                    &&& outcome matches ScanOutcome::Completed { roots, progress }
                    &&& node_views(roots@) == self@.roots
                    &&& progress == self@.control.snapshot()
                },
                Ending::Cancelled => outcome == (ScanOutcome::Cancelled {
                    progress: self@.control.snapshot(),
                }),
                Ending::Deadline => outcome == (ScanOutcome::Deadline {
                    progress: self@.control.snapshot(),
                }),
                Ending::Failed => {
                    &&& outcome matches ScanOutcome::Failed(error)
                    &&& error.message@ == POISONED@
                    &&& error.message@ == "scan inode state was poisoned"@
                },
            },
    {
        let progress = self.control.progress();
        match self.stage {
            Stage::Done(Ending::Cancelled) => ScanOutcome::Cancelled { progress },
            Stage::Done(Ending::Deadline) => ScanOutcome::Deadline { progress },
            Stage::Done(Ending::Failed) => ScanOutcome::Failed(
                ScanError { message: POISONED.to_owned() },
            ),
            _ => ScanOutcome::Completed { roots: self.roots, progress },
        }
    }
}

/// Begins a scan that can be watched, cancelled and given a deadline.
pub fn scan_directory_cooperative(
    options: ScanOptions,
    control: ScanControl,
    deadline: Option<u64>,
) -> (walk: ScanWalk)
    ensures
        walk.wf(),
        walk@ == WalkView::start(
            options.flags(),
            paths::path_views(options.directories@),
            control,
            deadline,
        ),
        walk@.flags == (ScanFlags {
            ignore_hidden: options.ignore_hidden,
            full_path: options.full_path,
            respect_gitignore: options.respect_gitignore,
            ignored_mode: options.ignored_mode,
            follow_symlinks: options.follow_symlinks,
        }),
        walk@.directories == paths::path_views(options.directories@),
        walk@.roots.len() == 0,
        walk@.control == control,
        walk@.deadline == deadline,
{
    let flags = ScanFlags {
        ignore_hidden: options.ignore_hidden,
        full_path: options.full_path,
        respect_gitignore: options.respect_gitignore,
        ignored_mode: options.ignored_mode,
        follow_symlinks: options.follow_symlinks,
    };
    let ghost given = options.directories@;
    let walk = ScanWalk {
        flags,
        directories: world::reversed(options.directories),
        roots: Vec::new(),
        frames: Vec::new(),
        rules: Vec::new(),
        seen: SeenInodes::new(),
        control,
        deadline,
        stage: Stage::RootGate,
    };
    assert(walk.directories@.reverse() =~= given);
    assert(walk@.frames =~= Seq::<FrameView>::empty());
    assert(walk@.rules =~= Seq::<RuleView>::empty());
    walk.next_root()
}

/// Begins a scan that nobody watches.
pub fn scan_directory(options: ScanOptions) -> (walk: ScanWalk)
    ensures
        walk.wf(),
        walk@ == WalkView::start(
            options.flags(),
            paths::path_views(options.directories@),
            ScanControl::fresh(),
            None,
        ),
{
    scan_directory_cooperative(options, ScanControl::default(), None)
}

impl ScanOutcome {
    /// The nodes of a scan that completed; a scan that did not has none.
    pub fn into_roots(self) -> (nodes: Vec<ScanNode>)
        ensures
            match self {
                ScanOutcome::Completed { roots, .. } => nodes == roots,
                _ => nodes@.len() == 0,
            },
    {
        match self {
            ScanOutcome::Completed { roots, .. } => roots,
            _ => Vec::new(),
        }
    }
}

} // verus!
