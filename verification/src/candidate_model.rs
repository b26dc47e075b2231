//! What a search for cleanup candidates is: the steps of a search that waits for one answer at a
//! time.

use crate::clean::{CandidateView, CleanupPreset};
use crate::control::ScanControl;
use crate::dir_walk::{DirFlags, TourStage, TourView};
use crate::measure::{MeasureStage, MeasureView};
use crate::metadata::Lookup;
use crate::paths::PathView;
use crate::scan_model::{IgnoredMode, NodeView, ScanFlags};
use crate::scan_steps::{Ending, StageView, WalkView};
use crate::world::{ItemView, World};
use vstd::prelude::*;
use vstd::utf8;

verus! {

/// The name of the directories that a preset looks for, if it goes by name.
pub open spec fn dir_name(preset: CleanupPreset) -> Option<Seq<char>> {
    match preset {
        CleanupPreset::Node => Some("node_modules"@),
        CleanupPreset::Rust => Some("target"@),
        CleanupPreset::Gitignored => None,
    }
}

/// Why something that a preset found can be cleaned up.
pub open spec fn reason_of(preset: CleanupPreset) -> Seq<char> {
    match preset {
        CleanupPreset::Node => "Node dependency directory"@,
        CleanupPreset::Rust => "Cargo build output directory"@,
        CleanupPreset::Gitignored => "Path matched by .gitignore"@,
    }
}

/// Whether a path ends in the name that a preset looks for.
pub open spec fn is_named(path: PathView, preset: CleanupPreset) -> bool {
    match (dir_name(preset), path.file_name()) {
        (Some(wanted), Some(name)) => utf8::valid_utf8(name) && utf8::decode_utf8(name) == wanted,
        _ => false,
    }
}

/// The paths of the ignored nodes at and below a node. What lies below an ignored node is not listed
/// again.
pub open spec fn ignored_in(node: NodeView) -> Seq<PathView>
    decreases node,
{
    if node.ignored {
        seq![node.path]
    } else {
        ignored_among(node.children)
    }
}

/// The paths of the ignored nodes at and below the nodes of a list.
pub open spec fn ignored_among(nodes: Seq<NodeView>) -> Seq<PathView>
    decreases nodes,
{
    if nodes.len() == 0 {
        Seq::empty()
    } else {
        ignored_among(nodes.drop_last()) + ignored_in(nodes.last())
    }
}

/// The ignored paths that a scan that has ended found. One that did not complete found none.
pub open spec fn ignored_by_scan(walk: WalkView) -> Seq<PathView> {
    if walk.stage == StageView::Done(Ending::Completed) {
        ignored_among(walk.roots)
    } else {
        Seq::empty()
    }
}

/// The candidate that a path becomes.
pub open spec fn candidate(preset: CleanupPreset, path: PathView, size: u64) -> CandidateView {
    CandidateView {
        path,
        size,
        reason: reason_of(preset),
        preset,
        ignored: preset == CleanupPreset::Gitignored,
    }
}

/// Where the paths come from of which one is being measured, and what is left there.
pub enum SourceView {
    /// A tour of the directories for those with the name that a preset looks for.
    Tour(CleanupPreset, TourView),
    /// Ignored paths that have been found.
    Ignored(Seq<PathView>),
}

impl SourceView {
    pub open spec fn preset(self) -> CleanupPreset {
        match self {
            SourceView::Tour(preset, _) => preset,
            SourceView::Ignored(_) => CleanupPreset::Gitignored,
        }
    }
}

/// What a search is at.
pub enum TaskView {
    /// Going through directories.
    Tour(CleanupPreset, TourView),
    /// Scanning for ignored paths.
    Scan(WalkView),
    /// Measuring a path that was found.
    Measure(SourceView, PathView, MeasureView),
    Done,
    /// Cannot go on: a size does not fit a number.
    Overflow,
}

/// What a search waits for.
pub enum QuestionView {
    /// What is found under a path.
    Lookup(PathView),
    /// The entries of a directory.
    Listing(PathView),
    /// The ignore file in a directory.
    IgnoreFile(PathView),
    /// Nothing but to go on: a scan that is part of it stands at a gate.
    Gate,
    Done,
    Overflow,
}

/// The state of a search.
pub struct SearchView {
    pub roots: Seq<PathView>,
    pub ignore_hidden: bool,
    pub follow_symlinks: bool,
    /// The presets that are still to be gone through.
    pub presets: Seq<CleanupPreset>,
    /// The paths that have been found, each by its components.
    pub seen: Set<Seq<(u8, Seq<u8>)>>,
    pub candidates: Seq<CandidateView>,
    pub task: TaskView,
}

impl SearchView {
    /// A search that has found nothing yet and has all presets ahead.
    pub open spec fn begun(
        roots: Seq<PathView>,
        presets: Seq<CleanupPreset>,
        ignore_hidden: bool,
        follow_symlinks: bool,
    ) -> SearchView {
        SearchView {
            roots,
            ignore_hidden,
            follow_symlinks,
            presets,
            seen: Set::empty(),
            candidates: Seq::empty(),
            task: TaskView::Done,
        }
    }

    /// A search that is about to begin.
    pub open spec fn start(
        roots: Seq<PathView>,
        presets: Seq<CleanupPreset>,
        ignore_hidden: bool,
        follow_symlinks: bool,
    ) -> SearchView {
        SearchView::begun(roots, presets, ignore_hidden, follow_symlinks).next_preset()
    }

    /// How the directories are gone through.
    pub open spec fn dir_flags(self) -> DirFlags {
        DirFlags {
            ignore_hidden: self.ignore_hidden,
            follow_symlinks: self.follow_symlinks,
            skip_git: false,
        }
    }

    /// How the directories are scanned for ignored paths.
    pub open spec fn scan_flags(self) -> ScanFlags {
        ScanFlags {
            ignore_hidden: self.ignore_hidden,
            full_path: true,
            respect_gitignore: true,
            ignored_mode: IgnoredMode::Summarize,
            follow_symlinks: self.follow_symlinks,
        }
    }

    pub open spec fn at(self, task: TaskView) -> SearchView {
        SearchView { task, ..self }
    }

    /// On to the next preset, or to the end.
    pub open spec fn next_preset(self) -> SearchView
        decreases self.presets.len(), 0nat, 0nat,
    {
        if self.presets.len() == 0 {
            self.at(TaskView::Done)
        } else {
            let rest = SearchView { presets: self.presets.drop_first(), ..self };
            match self.presets[0] {
                CleanupPreset::Gitignored => rest.scanning(
                    WalkView::start(self.scan_flags(), self.roots, ScanControl::fresh(), None),
                ),
                preset => rest.toured(preset, TourView::start(self.dir_flags(), self.roots)),
            }
        }
    }

    /// On with a tour that does not stand at a directory.
    pub open spec fn toured(self, preset: CleanupPreset, tour: TourView) -> SearchView
        decreases self.presets.len(), 1nat, 0nat,
    {
        if tour.stage is Done {
            self.next_preset()
        } else {
            self.at(TaskView::Tour(preset, tour))
        }
    }

    /// On with a tour. A directory with the name that the preset looks for is not gone into: it is
    /// measured, unless it was found before.
    pub open spec fn touring(self, preset: CleanupPreset, tour: TourView) -> SearchView
        decreases self.presets.len(), 2nat, 0nat,
    {
        match tour.stage {
            TourStage::Arrived(path) => if is_named(path, preset) {
                let past = tour.on_decision(false);
                if self.seen.contains(path.parts) {
                    self.toured(preset, past)
                } else {
                    self.measuring(SourceView::Tour(preset, past), path)
                }
            } else {
                self.toured(preset, tour.on_decision(true))
            },
            _ => self.toured(preset, tour),
        }
    }

    /// A path that was not found before is to be measured.
    pub open spec fn measuring(self, source: SourceView, path: PathView) -> SearchView {
        SearchView { seen: self.seen.insert(path.parts), ..self }.at(
            TaskView::Measure(source, path, MeasureView::start(path, self.follow_symlinks)),
        )
    }

    /// On with a scan. Of one that completed the ignored paths are gone through.
    pub open spec fn scanning(self, walk: WalkView) -> SearchView
        decreases self.presets.len(), 2nat, 0nat,
    {
        match walk.stage {
            StageView::Done(_) => self.collecting(ignored_by_scan(walk)),
            StageView::Overflow => self.at(TaskView::Overflow),
            _ => self.at(TaskView::Scan(walk)),
        }
    }

    /// On with ignored paths. One is measured unless it was found before.
    pub open spec fn collecting(self, list: Seq<PathView>) -> SearchView
        decreases self.presets.len(), 1nat, list.len(),
    {
        if list.len() == 0 {
            self.next_preset()
        } else if self.seen.contains(list[0].parts) {
            self.collecting(list.drop_first())
        } else {
            self.measuring(SourceView::Ignored(list.drop_first()), list[0])
        }
    }

    /// On with the measurement of a path. When it is done there is one more candidate.
    pub open spec fn measured(
        self,
        source: SourceView,
        path: PathView,
        walk: MeasureView,
    ) -> SearchView {
        match walk.stage {
            MeasureStage::Done => {
                let found = SearchView {
                    candidates: self.candidates.push(candidate(source.preset(), path, walk.total)),
                    ..self
                };
                match source {
                    SourceView::Tour(preset, tour) => found.toured(preset, tour),
                    SourceView::Ignored(list) => found.collecting(list),
                }
            },
            MeasureStage::Overflow => self.at(TaskView::Overflow),
            _ => self.at(TaskView::Measure(source, path, walk)),
        }
    }

    /// The next preset is passed over where there is nothing to go through.
    pub proof fn next_preset_starts_task(self)
        requires
            self.presets.len() > 0,
        ensures
            ({
                let rest = SearchView { presets: self.presets.drop_first(), ..self };
                let walk = WalkView::start(
                    self.scan_flags(),
                    self.roots,
                    ScanControl::fresh(),
                    None,
                );
                let tour = TourView::start(self.dir_flags(), self.roots);
                self.next_preset() == match self.presets[0] {
                    CleanupPreset::Gitignored => if walk.stage is Done {
                        rest.next_preset()
                    } else {
                        rest.at(TaskView::Scan(walk))
                    },
                    preset => if tour.stage is Done {
                        rest.next_preset()
                    } else {
                        rest.at(TaskView::Tour(preset, tour))
                    },
                }
            }),
    {
        let rest = SearchView { presets: self.presets.drop_first(), ..self };
        let walk = WalkView::start(self.scan_flags(), self.roots, ScanControl::fresh(), None);
        let tour = TourView::start(self.dir_flags(), self.roots);
        assert(walk.roots =~= Seq::<NodeView>::empty());
        assert(ignored_by_scan(walk) =~= Seq::<PathView>::empty());
        assert(rest.collecting(Seq::empty()) == rest.next_preset());
        assert(rest.scanning(walk) == if walk.stage is Done {
            rest.next_preset()
        } else {
            rest.at(TaskView::Scan(walk))
        });
        assert(rest.toured(self.presets[0], tour) == if tour.stage is Done {
            rest.next_preset()
        } else {
            rest.at(TaskView::Tour(self.presets[0], tour))
        });
    }

    /// Where a search goes from preset to preset does not depend on what it was at.
    pub proof fn next_preset_ignores_task(self, task: TaskView)
        ensures
            self.at(task).next_preset() == self.next_preset(),
        decreases self.presets.len(),
    {
        if self.presets.len() > 0 {
            SearchView { presets: self.presets.drop_first(), ..self }.next_preset_ignores_task(task);
            self.next_preset_starts_task();
            self.at(task).next_preset_starts_task();
        }
    }

    pub proof fn collecting_ignores_task(self, task: TaskView, list: Seq<PathView>)
        ensures
            self.at(task).collecting(list) == self.collecting(list),
        decreases list.len(),
    {
        self.next_preset_ignores_task(task);
        if list.len() > 0 {
            self.collecting_ignores_task(task, list.drop_first());
        }
    }

    /// Where an answer takes a search does not depend on what it was at beyond the part that the
    /// answer is for.
    pub proof fn answers_ignore_task(self, task: TaskView)
        ensures
            forall|preset: CleanupPreset, tour: TourView| #[trigger]
                self.at(task).toured(preset, tour) == self.toured(preset, tour),
            forall|preset: CleanupPreset, tour: TourView| #[trigger]
                self.at(task).touring(preset, tour) == self.touring(preset, tour),
            forall|walk: WalkView| #[trigger]
                self.at(task).scanning(walk) == self.scanning(walk),
            forall|source: SourceView, path: PathView, walk: MeasureView| #[trigger]
                self.at(task).measured(source, path, walk) == self.measured(source, path, walk),
    {
        self.next_preset_ignores_task(task);
        assert forall|preset: CleanupPreset, tour: TourView| #[trigger]
            self.at(task).toured(preset, tour) == self.toured(preset, tour) by {}
        assert forall|preset: CleanupPreset, tour: TourView| #[trigger]
            self.at(task).touring(preset, tour) == self.touring(preset, tour) by {}
        assert forall|walk: WalkView| #[trigger]
            self.at(task).scanning(walk) == self.scanning(walk) by {
            self.collecting_ignores_task(task, ignored_by_scan(walk));
        }
        assert forall|source: SourceView, path: PathView, walk: MeasureView| #[trigger]
            self.at(task).measured(source, path, walk) == self.measured(source, path, walk) by {
            let found = SearchView {
                candidates: self.candidates.push(candidate(source.preset(), path, walk.total)),
                ..self
            };
            found.next_preset_ignores_task(task);
            if let SourceView::Ignored(list) = source {
                found.collecting_ignores_task(task, list);
            }
        }
    }

    /// What the search waits for.
    pub open spec fn asks(self) -> QuestionView {
        match self.task {
            TaskView::Tour(_, tour) => match tour.stage {
                TourStage::Lookup(path) => QuestionView::Lookup(path),
                TourStage::Listing(path) => QuestionView::Listing(path),
                _ => QuestionView::Done,
            },
            TaskView::Scan(walk) => match walk.stage {
                StageView::Lookup(job) => QuestionView::Lookup(job.path),
                StageView::Rules(job, _) => QuestionView::IgnoreFile(job.path),
                StageView::Listing(job, _, _) => QuestionView::Listing(job.path),
                _ => QuestionView::Gate,
            },
            TaskView::Measure(_, _, walk) => match walk.stage {
                MeasureStage::Lookup(path) => QuestionView::Lookup(path),
                MeasureStage::Listing(path) => QuestionView::Listing(path),
                _ => QuestionView::Done,
            },
            TaskView::Done => QuestionView::Done,
            TaskView::Overflow => QuestionView::Overflow,
        }
    }

    /// The search has learned what is found under the path that it asked about.
    pub open spec fn on_lookup(self, lookup: Lookup) -> SearchView {
        match self.task {
            TaskView::Tour(preset, tour) => self.touring(preset, tour.on_lookup(lookup)),
            TaskView::Scan(walk) => self.scanning(walk.on_lookup(lookup)),
            TaskView::Measure(source, path, walk) => self.measured(
                source,
                path,
                walk.on_lookup(lookup),
            ),
            _ => self,
        }
    }

    /// The search has learned the entries of the directory that it asked about.
    pub open spec fn on_listing(self, listing: Option<Seq<ItemView>>) -> SearchView {
        match self.task {
            TaskView::Tour(preset, tour) => self.toured(preset, tour.on_listing(listing)),
            TaskView::Scan(walk) => self.scanning(walk.on_listing(listing)),
            TaskView::Measure(source, path, walk) => self.measured(
                source,
                path,
                walk.on_listing(listing),
            ),
            _ => self,
        }
    }

    /// The search has learned the lines of the ignore file that it asked about.
    pub open spec fn on_ignore_file(self, lines: Option<Seq<Seq<char>>>) -> SearchView {
        match self.task {
            TaskView::Scan(walk) => self.scanning(walk.on_ignore_file(lines)),
            _ => self,
        }
    }

    /// The search goes on where a scan that is part of it stands at a gate. Nothing ever stops it
    /// there.
    pub open spec fn on_gate(self) -> SearchView {
        match self.task {
            TaskView::Scan(walk) => self.scanning(walk.on_signal(false, 0)),
            _ => self,
        }
    }

    /// The search after one more answer in a file system that holds still.
    pub open spec fn step(self, world: World) -> SearchView {
        match self.asks() {
            QuestionView::Lookup(path) => self.on_lookup((world.lookup)(path)),
            QuestionView::Listing(path) => self.on_listing((world.listing)(path)),
            QuestionView::IgnoreFile(path) => self.on_ignore_file((world.ignore_file)(path)),
            QuestionView::Gate => self.on_gate(),
            _ => self,
        }
    }

    pub open spec fn run(self, world: World, times: nat) -> SearchView
        decreases times,
    {
        if times == 0 {
            self
        } else {
            self.step(world).run(world, (times - 1) as nat)
        }
    }
}

} // verus!
