//! Searching for what can be cleaned up.
//!
//! A search goes through the presets one after another: through the directories below the roots for
//! those with the name that a preset looks for, or through the ignored paths of a scan. What is found
//! for the first time is measured and becomes a candidate.

use crate::candidate_model;
use crate::candidate_model::{QuestionView, SearchView, SourceView, TaskView};
use crate::clean::{CandidateOptions, CandidateView, CleanupCandidate, CleanupPreset};
use crate::control::ScanControl;
use crate::dir_walk::{DirFlags, DirWalk, TourRequest, TourStage, TourView};
use crate::measure;
use crate::measure::{MeasureRequest, MeasureWalk};
use crate::metadata::Lookup;
use crate::order;
use crate::order::Order;
use crate::path_set::PathSet;
use crate::paths;
use crate::paths::PathView;
use crate::rules::IgnoreFile;
use crate::scan_model::IgnoredMode;
use crate::scan_steps::WalkView;
use crate::scanner;
use crate::scanner::{ScanNode, ScanOptions, ScanRequest, ScanWalk};
use crate::sorting;
use crate::sorting::Ranked;
use crate::text;
use crate::world;
use crate::world::DirItem;
use std::path::PathBuf;
use vstd::prelude::*;

verus! {

impl Ranked for CleanupCandidate {
    /// Larger candidates come first, and candidates of the same size are listed by path.
    open spec fn placed(a: CandidateView, b: CandidateView) -> Order {
        if a.size > b.size {
            Order::Less
        } else if a.size < b.size {
            Order::Greater
        } else {
            order::parts_order(a.path.parts, b.path.parts)
        }
    }

    proof fn order_is_total(a: CandidateView, b: CandidateView, c: CandidateView) {
        order::parts_order_is_antisymmetric(a.path.parts, a.path.parts);
        order::parts_order_is_antisymmetric(a.path.parts, b.path.parts);
        if a.size == b.size && b.size == c.size && Self::placed(a, b) != Order::Greater
            && Self::placed(b, c) != Order::Greater {
            order::parts_order_is_transitive(a.path.parts, b.path.parts, c.path.parts);
        }
    }

    fn order(&self, other: &Self) -> (order: Order) {
        if self.size > other.size {
            Order::Less
        } else if self.size < other.size {
            Order::Greater
        } else {
            order::order_parts(&paths::components(&self.path), &paths::components(&other.path))
        }
    }
}

/// Candidates that are listed stand in strict order where no path was found twice.
pub proof fn listed_candidates_ascend(found: Seq<CandidateView>, listed: Seq<CandidateView>)
    requires
        sorting::is_sorted_from::<CleanupCandidate>(found, listed),
        forall|i: int, j: int|
            #![trigger found[i], found[j]]
            0 <= i < j < found.len() ==> found[i].path.parts != found[j].path.parts,
    ensures
        forall|i: int, j: int|
            0 <= i < j < listed.len() ==> #[trigger] CleanupCandidate::placed(listed[i], listed[j])
                == Order::Less,
{
    let positions = choose|positions: Seq<usize>|
        sorting::is_sorting::<CleanupCandidate>(found, listed, positions);
    assert forall|i: int, j: int| 0 <= i < j < listed.len() implies #[trigger] CleanupCandidate::placed(
        listed[i],
        listed[j],
    ) == Order::Less by {
        let a = positions[i] as int;
        let b = positions[j] as int;
        assert(sorting::ahead::<CleanupCandidate>(found, a, b));
        if a == b {
            CleanupCandidate::order_is_total(found[a], found[a], found[a]);
        }
        order::parts_order_is_antisymmetric(found[a].path.parts, found[b].path.parts);
    }
}

/// Whether a path ends in the name that a preset looks for.
fn named(path: &PathBuf, preset: CleanupPreset) -> (yes: bool)
    ensures
        yes == candidate_model::is_named(paths::path_view(*path), preset),
{
    let wanted: String = match preset {
        CleanupPreset::Node => "node_modules".to_owned(),
        CleanupPreset::Rust => "target".to_owned(),
        CleanupPreset::Gitignored => {
            return false;
        },
    };
    match paths::file_name(path) {
        Some(name) => match text::decode(name) {
            Some(name) => name == wanted,
            None => false,
        },
        None => false,
    }
}

/// Why something that a preset found can be cleaned up.
fn reason(preset: CleanupPreset) -> (reason: String)
    ensures
        reason@ == candidate_model::reason_of(preset),
{
    match preset {
        CleanupPreset::Node => "Node dependency directory".to_owned(),
        CleanupPreset::Rust => "Cargo build output directory".to_owned(),
        CleanupPreset::Gitignored => "Path matched by .gitignore".to_owned(),
    }
}

proof fn path_views_push(list: Seq<PathBuf>, path: PathBuf)
    ensures
        paths::path_views(list.push(path)) == paths::path_views(list).push(paths::path_view(path)),
{
    assert(paths::path_views(list.push(path)) =~= paths::path_views(list).push(
        paths::path_view(path),
    ));
}

/// Lists the ignored nodes at and below a node, without what lies below an ignored one.
fn collect_ignored_nodes(node: &ScanNode, found: &mut Vec<PathBuf>)
    ensures
        paths::path_views(final(found)@) == paths::path_views(old(found)@)
            + candidate_model::ignored_in(node.deep()),
    decreases node,
{
    let ghost before = paths::path_views(found@);
    if node.ignored {
        let path = node.path.clone();
        proof {
            path_views_push(found@, path);
        }
        found.push(path);
        assert(before.push(paths::path_view(path)) =~= before + seq![node.deep().path]);
        return;
    }
    let ghost children = node.children@;
    let mut i: usize = 0;
    assert(children.take(0) =~= Seq::<ScanNode>::empty());
    assert(before + Seq::<PathView>::empty() =~= before);
    while i < node.children.len()
        invariant
            i <= children.len(),
            children == node.children@,
            paths::path_views(found@) == before + candidate_model::ignored_among(
                scanner::node_views(children.take(i as int)),
            ),
        decreases children.len() - i,
    {
        let ghost earlier = scanner::node_views(children.take(i as int));
        let ghost so_far = candidate_model::ignored_among(earlier);
        let child = &node.children[i];
        assert(decreases_to!(node => child));
        collect_ignored_nodes(child, found);
        i = i + 1;
        proof {
            assert(children.take(i as int).drop_last() =~= children.take(i - 1));
            let now = scanner::node_views(children.take(i as int));
            assert(now == earlier.push(child.deep()));
            assert(now.drop_last() =~= earlier);
            assert(before + (so_far + candidate_model::ignored_in(child.deep())) =~= (before
                + so_far) + candidate_model::ignored_in(child.deep()));
        }
    }
    assert(children.take(i as int) =~= children);
}

/// Lists the ignored nodes at and below the nodes of a list.
fn ignored_paths(nodes: &Vec<ScanNode>) -> (found: Vec<PathBuf>)
    ensures
        paths::path_views(found@) == candidate_model::ignored_among(scanner::node_views(nodes@)),
{
    let mut found: Vec<PathBuf> = Vec::new();
    let mut i: usize = 0;
    assert(nodes@.take(0) =~= Seq::<ScanNode>::empty());
    assert(paths::path_views(found@) =~= Seq::<PathView>::empty());
    while i < nodes.len()
        invariant
            i <= nodes@.len(),
            paths::path_views(found@) == candidate_model::ignored_among(
                scanner::node_views(nodes@.take(i as int)),
            ),
        decreases nodes@.len() - i,
    {
        let ghost earlier = scanner::node_views(nodes@.take(i as int));
        let node = &nodes[i];
        collect_ignored_nodes(node, &mut found);
        i = i + 1;
        proof {
            assert(nodes@.take(i as int).drop_last() =~= nodes@.take(i - 1));
            let now = scanner::node_views(nodes@.take(i as int));
            assert(now == earlier.push(node.deep()));
            assert(now.drop_last() =~= earlier);
        }
    }
    assert(nodes@.take(i as int) =~= nodes@);
    found
}

/// Where the paths come from of which one is being measured, and what is left there.
enum Source {
    Tour(CleanupPreset, DirWalk),
    /// The next path stands at the back.
    Ignored(Vec<PathBuf>),
}

impl Source {
    spec fn deep(self) -> SourceView {
        match self {
            Source::Tour(preset, tour) => SourceView::Tour(preset, tour@),
            Source::Ignored(list) => SourceView::Ignored(world::stacked(list@)),
        }
    }

    fn preset(&self) -> (preset: CleanupPreset)
        ensures
            preset == self.deep().preset(),
    {
        match self {
            Source::Tour(preset, _) => *preset,
            Source::Ignored(_) => CleanupPreset::Gitignored,
        }
    }
}

/// What a search is at.
enum Task {
    Tour(CleanupPreset, DirWalk),
    Scan(ScanWalk),
    Measure(Source, PathBuf, MeasureWalk),
    Done,
    Overflow,
}

impl Task {
    spec fn deep(self) -> TaskView {
        match self {
            Task::Tour(preset, tour) => TaskView::Tour(preset, tour@),
            Task::Scan(walk) => TaskView::Scan(walk@),
            Task::Measure(source, path, walk) => TaskView::Measure(
                source.deep(),
                paths::path_view(path),
                walk@,
            ),
            Task::Done => TaskView::Done,
            Task::Overflow => TaskView::Overflow,
        }
    }

    spec fn wf(self) -> bool {
        match self {
            Task::Tour(_, tour) => tour@.stage is Lookup || tour@.stage is Listing,
            Task::Scan(walk) => walk.wf() && !(walk@.stage is Done || walk@.stage is Overflow),
            Task::Measure(source, _, walk) => {
                &&& walk@.stage is Lookup || walk@.stage is Listing
                &&& source matches Source::Tour(_, tour) ==> !(tour@.stage is Arrived)
            },
            _ => true,
        }
    }
}

/// What a search waits for.
pub enum CandidateRequest<'a> {
    /// What is found under the path, with what a symbolic link leads to where links are followed;
    /// answered by `looked_up`.
    Lookup { path: &'a PathBuf, follow_symlinks: bool },
    /// The entries of the directory; answered by `listed`.
    Listing(&'a PathBuf),
    /// The ignore file in the directory; answered by `ignore_file`.
    IgnoreFile(&'a PathBuf),
    /// Nothing but to go on; answered by `pass`.
    Gate,
    /// Nothing: the search has ended.
    Done,
    /// Nothing: the search cannot go on, because a size or a depth does not fit a number.
    Overflow,
}

impl<'a> CandidateRequest<'a> {
    /// Whether this is what a search in the given state waits for.
    pub open spec fn is_for(self, search: SearchView) -> bool {
        match self {
            CandidateRequest::Lookup { path, follow_symlinks } => {
                &&& search.asks() == QuestionView::Lookup(paths::path_view(*path))
                &&& follow_symlinks == search.follow_symlinks
            },
            CandidateRequest::Listing(path) => search.asks() == QuestionView::Listing(
                paths::path_view(*path),
            ),
            CandidateRequest::IgnoreFile(path) => search.asks() == QuestionView::IgnoreFile(
                paths::path_view(*path),
            ),
            CandidateRequest::Gate => search.asks() is Gate,
            CandidateRequest::Done => search.asks() is Done,
            CandidateRequest::Overflow => search.asks() is Overflow,
        }
    }
}

/// A search under way. It waits for one answer at a time.
pub struct CandidateSearch {
    roots: Vec<PathBuf>,
    ignore_hidden: bool,
    follow_symlinks: bool,
    /// The presets that are still to be gone through, the next one at the back.
    presets: Vec<CleanupPreset>,
    seen: PathSet,
    candidates: Vec<CleanupCandidate>,
    task: Task,
}

impl View for CandidateSearch {
    type V = SearchView;

    closed spec fn view(&self) -> SearchView {
        SearchView {
            roots: paths::path_views(self.roots@),
            ignore_hidden: self.ignore_hidden,
            follow_symlinks: self.follow_symlinks,
            presets: self.presets@.reverse(),
            seen: self.seen@,
            candidates: sorting::views_of(self.candidates@),
            task: self.task.deep(),
        }
    }
}

fn copied(list: &Vec<PathBuf>) -> (copy: Vec<PathBuf>)
    ensures
        paths::path_views(copy@) == paths::path_views(list@),
{
    let mut copy: Vec<PathBuf> = Vec::new();
    let mut i: usize = 0;
    while i < list.len()
        invariant
            i <= list@.len(),
            copy@.len() == i,
            forall|k: int|
                0 <= k < i ==> paths::path_view(#[trigger] copy@[k]) == paths::path_view(list@[k]),
        decreases list@.len() - i,
    {
        copy.push(list[i].clone());
        i = i + 1;
    }
    assert(paths::path_views(copy@) =~= paths::path_views(list@));
    copy
}

impl CandidateSearch {
    pub closed spec fn wf(self) -> bool {
        self.seen.wf() && self.task.wf()
    }

    /// On to the next preset, or to the end.
    fn next_preset(self) -> (search: CandidateSearch)
        requires
            self.seen.wf(),
        ensures
            search.wf(),
            search@ == self@.next_preset(),
    {
        let mut search = self;
        search.task = Task::Done;
        proof {
            self@.next_preset_ignores_task(TaskView::Done);
        }
        loop
            invariant
                search.seen.wf(),
                search.task == Task::Done,
                search@.next_preset() == self@.next_preset(),
            decreases search.presets@.len(),
        {
            let ghost before = search@;
            proof {
                if before.presets.len() > 0 {
                    before.next_preset_starts_task();
                    TourView {
                        flags: before.dir_flags(),
                        pending: before.roots,
                        seen: Set::empty(),
                        stage: TourStage::Done,
                    }.next_is_wf();
                }
            }
            match search.presets.pop() {
                None => {
                    assert(search@.presets =~= before.presets);
                    return search;
                },
                Some(preset) => {
                    assert(search@.presets =~= before.presets.drop_first());
                    assert(preset == before.presets[0]);
                    match preset {
                        CleanupPreset::Gitignored => {
                            let walk = search.find_gitignored_candidates();
                            match walk.request() {
                                ScanRequest::Ended => {},
                                _ => {
                                    search.task = Task::Scan(walk);
                                    return search;
                                },
                            }
                        },
                        _ => {
                            let tour = search.find_named_dir_candidates();
                            match tour.request() {
                                TourRequest::Done => {},
                                _ => {
                                    search.task = Task::Tour(preset, tour);
                                    return search;
                                },
                            }
                        },
                    }
                },
            }
        }
    }

    /// Begins to go through the directories below the roots.
    fn find_named_dir_candidates(&self) -> (tour: DirWalk)
        ensures
            tour@ == TourView::start(self@.dir_flags(), self@.roots),
    {
        DirWalk::new(
            &self.roots,
            DirFlags {
                ignore_hidden: self.ignore_hidden,
                follow_symlinks: self.follow_symlinks,
                skip_git: false,
            },
        )
    }

    /// Begins to scan the roots for ignored paths.
    fn find_gitignored_candidates(&self) -> (walk: ScanWalk)
        ensures
            walk.wf(),
            walk@ == WalkView::start(
                self@.scan_flags(),
                self@.roots,
                ScanControl::fresh(),
                None,
            ),
    {
        scanner::scan_directory(
            ScanOptions {
                directories: copied(&self.roots),
                ignore_hidden: self.ignore_hidden,
                full_path: true,
                respect_gitignore: true,
                ignored_mode: IgnoredMode::Summarize,
                follow_symlinks: self.follow_symlinks,
            },
        )
    }

    fn toured(self, preset: CleanupPreset, tour: DirWalk) -> (search: CandidateSearch)
        requires
            self.seen.wf(),
            !(tour@.stage is Arrived),
        ensures
            search.wf(),
            search@ == self@.toured(preset, tour@),
    {
        if let TourRequest::Done = tour.request() {
            return self.next_preset();
        }
        let mut search = self;
        search.task = Task::Tour(preset, tour);
        search
    }

    /// Takes up a path that was found, unless it was found before. In that case the source is handed
    /// back.
    fn push_candidate(self, source: Source, path: PathBuf) -> (taken: Result<
        CandidateSearch,
        (CandidateSearch, Source),
    >)
        requires
            self.seen.wf(),
            source matches Source::Tour(_, tour) ==> !(tour@.stage is Arrived),
        ensures
            taken is Err <==> self@.seen.contains(paths::path_parts(path)),
            match taken {
                Ok(search) => {
                    &&& search.wf()
                    &&& search@ == self@.measuring(source.deep(), paths::path_view(path))
                },
                Err((search, same)) => {
                    &&& search.seen.wf()
                    &&& search@ == self@
                    &&& same == source
                },
            },
    {
        let mut search = self;
        if !search.seen.insert(&path) {
            assert(search@.seen =~= self@.seen);
            return Err((search, source));
        }
        let walk = measure::measure_path_inner(path.clone(), search.follow_symlinks);
        search.task = Task::Measure(source, path, walk);
        Ok(search)
    }

    fn touring(self, preset: CleanupPreset, tour: DirWalk) -> (search: CandidateSearch)
        requires
            self.seen.wf(),
        ensures
            search.wf(),
            search@ == self@.touring(preset, tour@),
    {
        let at: PathBuf = match tour.request() {
            TourRequest::Decision(path) => path.clone(),
            _ => {
                return self.toured(preset, tour);
            },
        };
        proof {
            tour@.next_is_wf();
        }
        if !named(&at, preset) {
            return self.toured(preset, tour.decided(true));
        }
        match self.push_candidate(Source::Tour(preset, tour.decided(false)), at) {
            Ok(search) => search,
            Err((search, Source::Tour(preset, past))) => search.toured(preset, past),
            Err((search, _)) => search.next_preset(),
        }
    }

    fn collecting(self, list: Vec<PathBuf>) -> (search: CandidateSearch)
        requires
            self.seen.wf(),
        ensures
            search.wf(),
            search@ == self@.collecting(world::stacked(list@)),
    {
        let mut search = self;
        let mut rest: Vec<PathBuf> = list;
        loop
            invariant
                search.seen.wf(),
                search@.collecting(world::stacked(rest@)) == self@.collecting(
                    world::stacked(list@),
                ),
            decreases rest@.len(),
        {
            let ghost before = rest@;
            match rest.pop() {
                None => {
                    return search.next_preset();
                },
                Some(path) => {
                    assert(world::stacked(before)[0] == paths::path_view(path));
                    assert(world::stacked(rest@) =~= world::stacked(before).drop_first());
                    match search.push_candidate(Source::Ignored(rest), path) {
                        Ok(found) => {
                            return found;
                        },
                        Err((same, Source::Ignored(left))) => {
                            search = same;
                            rest = left;
                        },
                        Err((same, _)) => {
                            return same.next_preset();
                        },
                    }
                },
            }
        }
    }

    fn scanning(self, walk: ScanWalk) -> (search: CandidateSearch)
        requires
            self.seen.wf(),
            walk.wf(),
        ensures
            search.wf(),
            search@ == self@.scanning(walk@),
    {
        match walk.request() {
            ScanRequest::Ended => {
                let ghost ended = walk@;
                let roots = walk.outcome().into_roots();
                let found = ignored_paths(&roots);
                assert(paths::path_views(found@) =~= candidate_model::ignored_by_scan(ended));
                let list = world::reversed(found);
                assert(list@.reverse() =~= found@);
                self.collecting(list)
            },
            ScanRequest::Overflow => {
                let mut search = self;
                search.task = Task::Overflow;
                search
            },
            _ => {
                let mut search = self;
                search.task = Task::Scan(walk);
                search
            },
        }
    }

    fn measured(self, source: Source, path: PathBuf, walk: MeasureWalk) -> (search: CandidateSearch)
        requires
            self.seen.wf(),
            source matches Source::Tour(_, tour) ==> !(tour@.stage is Arrived),
        ensures
            search.wf(),
            search@ == self@.measured(source.deep(), paths::path_view(path), walk@),
    {
        let mut search = self;
        match walk.request() {
            MeasureRequest::Done(size) => {
                let preset = source.preset();
                let candidate = CleanupCandidate {
                    path,
                    size,
                    reason: reason(preset),
                    preset,
                    ignored: preset == CleanupPreset::Gitignored,
                };
                search.candidates.push(candidate);
                assert(search@.candidates =~= self@.candidates.push(candidate@));
                match source {
                    Source::Tour(preset, tour) => search.toured(preset, tour),
                    Source::Ignored(list) => search.collecting(list),
                }
            },
            MeasureRequest::Overflow => {
                search.task = Task::Overflow;
                search
            },
            _ => {
                search.task = Task::Measure(source, path, walk);
                search
            },
        }
    }

    /// What the search waits for.
    pub fn request(&self) -> (request: CandidateRequest<'_>)
        requires
            self.wf(),
        ensures
            request.is_for(self@),
    {
        match &self.task {
            Task::Tour(_, tour) => match tour.request() {
                TourRequest::Lookup(path) => CandidateRequest::Lookup {
                    path,
                    follow_symlinks: self.follow_symlinks,
                },
                TourRequest::Listing(path) => CandidateRequest::Listing(path),
                _ => CandidateRequest::Done,
            },
            Task::Scan(walk) => match walk.request() {
                ScanRequest::Lookup { path, .. } => CandidateRequest::Lookup {
                    path,
                    follow_symlinks: self.follow_symlinks,
                },
                ScanRequest::IgnoreFile(path) => CandidateRequest::IgnoreFile(path),
                ScanRequest::Listing(path) => CandidateRequest::Listing(path),
                _ => CandidateRequest::Gate,
            },
            Task::Measure(_, _, walk) => match walk.request() {
                MeasureRequest::Lookup { path, .. } => CandidateRequest::Lookup {
                    path,
                    follow_symlinks: self.follow_symlinks,
                },
                MeasureRequest::Listing(path) => CandidateRequest::Listing(path),
                _ => CandidateRequest::Done,
            },
            Task::Done => CandidateRequest::Done,
            Task::Overflow => CandidateRequest::Overflow,
        }
    }

    /// Goes on after the path that was asked about has been looked up.
    pub fn looked_up(self, lookup: Lookup) -> (search: CandidateSearch)
        requires
            self.wf(),
            self@.asks() is Lookup,
        ensures
            search.wf(),
            search@ == self@.on_lookup(lookup),
    {
        let mut search = self;
        let mut task = Task::Done;
        std::mem::swap(&mut task, &mut search.task);
        proof {
            self@.answers_ignore_task(TaskView::Done);
        }
        match task {
            Task::Tour(preset, tour) => search.touring(preset, tour.looked_up(lookup)),
            Task::Scan(walk) => search.scanning(walk.looked_up(lookup)),
            Task::Measure(source, path, walk) => search.measured(
                source,
                path,
                walk.looked_up(lookup),
            ),
            _ => search,
        }
    }

    /// Goes on after the entries of the directory that was asked about have been read.
    pub fn listed(self, listing: Option<Vec<DirItem>>) -> (search: CandidateSearch)
        requires
            self.wf(),
            self@.asks() is Listing,
        ensures
            search.wf(),
            search@ == self@.on_listing(world::listing_view(listing)),
    {
        let mut search = self;
        let mut task = Task::Done;
        std::mem::swap(&mut task, &mut search.task);
        proof {
            self@.answers_ignore_task(TaskView::Done);
        }
        match task {
            Task::Tour(preset, tour) => {
                let tour = tour.listed(listing);
                search.toured(preset, tour)
            },
            Task::Scan(walk) => search.scanning(walk.listed(listing)),
            Task::Measure(source, path, walk) => search.measured(source, path, walk.listed(listing)),
            _ => search,
        }
    }

    /// Goes on after the ignore file that was asked about has been read.
    pub fn ignore_file(self, file: IgnoreFile) -> (search: CandidateSearch)
        requires
            self.wf(),
            self@.asks() is IgnoreFile,
        ensures
            search.wf(),
            search@ == self@.on_ignore_file(file.lines()),
    {
        let mut search = self;
        let mut task = Task::Done;
        std::mem::swap(&mut task, &mut search.task);
        proof {
            self@.answers_ignore_task(TaskView::Done);
        }
        match task {
            Task::Scan(walk) => search.scanning(walk.ignore_file(file)),
            _ => search,
        }
    }

    /// Goes on at a gate.
    pub fn pass(self) -> (search: CandidateSearch)
        requires
            self.wf(),
            self@.asks() is Gate,
        ensures
            search.wf(),
            search@ == self@.on_gate(),
    {
        let mut search = self;
        let mut task = Task::Done;
        std::mem::swap(&mut task, &mut search.task);
        proof {
            self@.answers_ignore_task(TaskView::Done);
        }
        match task {
            Task::Scan(walk) => search.scanning(walk.signal(false, 0)),
            _ => search,
        }
    }

    /// The candidates that were found, larger ones first and those of the same size by path.
    pub fn into_candidates(self) -> (candidates: Vec<CleanupCandidate>)
        requires
            self@.asks() is Done,
        ensures
            sorting::is_sorted_from::<CleanupCandidate>(
                self@.candidates,
                sorting::views_of(candidates@),
            ),
    {
        sorting::sort(self.candidates)
    }
}

/// Begins a search for what can be cleaned up.
pub fn find_candidates(options: CandidateOptions) -> (search: CandidateSearch)
    ensures
        search.wf(),
        search@ == SearchView::start(
            paths::path_views(options.roots@),
            options.wanted(),
            options.ignore_hidden,
            options.follow_symlinks,
        ),
{
    let presets = options.effective_presets();
    let search = CandidateSearch {
        roots: options.roots,
        ignore_hidden: options.ignore_hidden,
        follow_symlinks: options.follow_symlinks,
        presets: world::reversed(presets),
        seen: PathSet::new(),
        candidates: Vec::new(),
        task: Task::Done,
    };
    assert(search@.presets =~= options.wanted());
    assert(search@.candidates =~= Seq::<CandidateView>::empty());
    search.next_preset()
}

} // verus!
