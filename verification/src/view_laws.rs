//! The contracts speak of values as they are: nothing is lost or changed between what the library is
//! handed or hands out and what its contracts say of it.

use crate::candidate_model::{SearchView, TaskView};
use crate::candidates::CandidateRequest;
use crate::clean::{CleanupCandidate, DeletionRequest, DeletionStage, RemovalEntry};
use crate::dir_walk::{TourRequest, TourStage, TourView};
use crate::git;
use crate::git::{DirtyGitRepo, RepoRequest, RepoSearchView};
use crate::measure::{MeasureRequest, MeasureStage, MeasureView};
use crate::order;
use crate::paths;
use crate::paths::{Part, PathView};
use crate::rules;
use crate::rules::{RuleSet, RuleView};
use crate::scan_steps::{StageView, WalkView};
use crate::scanner;
use crate::scanner::{ScanNode, ScanOptions, ScanRequest};
use crate::sorting;
use crate::text;
use crate::world;
use crate::world::{DirItem, ItemView};
use std::path::PathBuf;
use vstd::prelude::*;

verus! {

/// A path is seen by its bytes, its parts and the texts that are made of it, and its parts are those
/// of its prefix and its components.
pub proof fn paths_are_seen_as_they_are(path: PathBuf, list: Seq<PathBuf>)
    ensures
        paths::path_view(path).bytes == paths::path_bytes(path),
        paths::path_view(path).text == paths::path_text(path),
        paths::path_view(path).name_text == paths::name_text(path),
        paths::path_view(path).parts == (match paths::path_prefix(path) {
            Some((form, first, second)) => seq![(form, first), (form, second)],
            None => Seq::empty(),
        }) + paths::path_steps(path),
        paths::path_views(list).len() == list.len(),
        forall|i: int|
            #![trigger paths::path_views(list)[i]]
            0 <= i < list.len() ==> paths::path_views(list)[i] == paths::path_view(list[i]),
{
    reveal(paths::path_parts);
}

/// The entries of a directory are seen one by one and as they are.
pub proof fn entries_are_seen_as_they_are(items: Vec<DirItem>)
    ensures
        world::listing_view(None) is None,
        ({
            let seen = world::listing_view(Some(items));
            &&& seen is Some
            &&& (seen->0).len() == items@.len()
            &&& forall|i: int|
                #![trigger items@[i]]
                0 <= i < items@.len() ==> match items@[i] {
                    DirItem::Unreadable => (seen->0)[i] is Unreadable,
                    DirItem::Entry { path, kind } => (seen->0)[i] == (ItemView::Entry {
                        path: paths::path_view(path),
                        kind,
                    }),
                }
        }),
{
}

/// A node is seen with its own name, path, size, depth and marks, and with its children one by one.
pub proof fn nodes_are_seen_as_they_are(node: ScanNode)
    ensures
        node.deep().name == node.name@,
        node.deep().path == paths::path_view(node.path),
        node.deep().size == node.size,
        node.deep().depth == node.depth,
        node.deep().ignored == node.ignored,
        node.deep().collapsed == node.collapsed,
        node.deep().children.len() == node.children@.len(),
        forall|i: int|
            #![trigger node.children@[i]]
            #![trigger node.deep().children[i]]
            0 <= i < node.children@.len() ==> node.deep().children[i] == node.children@[i].deep(),
{
    node_lists_are_seen_as_they_are(node.children@);
    assert(node.deep().children == scanner::node_views(node.children@));
}

/// The nodes of a list are seen one by one.
pub proof fn node_lists_are_seen_as_they_are(nodes: Seq<ScanNode>)
    ensures
        scanner::node_views(nodes).len() == nodes.len(),
        forall|i: int|
            #![trigger nodes[i]]
            #![trigger scanner::node_views(nodes)[i]]
            0 <= i < nodes.len() ==> scanner::node_views(nodes)[i] == nodes[i].deep(),
    decreases nodes.len(),
{
    if nodes.len() > 0 {
        let earlier = nodes.drop_last();
        node_lists_are_seen_as_they_are(earlier);
        assert forall|i: int|
            #![trigger nodes[i]]
            #![trigger scanner::node_views(nodes)[i]]
            0 <= i < nodes.len() implies scanner::node_views(nodes)[i] == nodes[i].deep() by {
            if i < earlier.len() {
                assert(earlier[i] == nodes[i]);
                assert(scanner::node_views(earlier)[i] == earlier[i].deep());
            }
        }
    }
}

/// Candidates, entries of plans and repositories are seen as they are, one by one.
pub proof fn findings_are_seen_as_they_are(
    candidate: CleanupCandidate,
    entry: RemovalEntry,
    repo: DirtyGitRepo,
    candidates: Seq<CleanupCandidate>,
)
    ensures
        candidate@.path == paths::path_view(candidate.path),
        candidate@.size == candidate.size,
        candidate@.reason == candidate.reason@,
        candidate@.preset == candidate.preset,
        candidate@.ignored == candidate.ignored,
        entry@.path == paths::path_view(entry.path),
        entry@.size == entry.size,
        entry@.reason == entry.reason@,
        entry@.preset == entry.preset,
        repo@.path == paths::path_view(repo.path),
        repo@.dirty_entries == repo.dirty_entries,
        sorting::views_of(candidates).len() == candidates.len(),
        forall|i: int|
            #![trigger sorting::views_of(candidates)[i]]
            0 <= i < candidates.len() ==> sorting::views_of(candidates)[i] == candidates[i]@,
{
}

/// Lists of any kind are seen one by one.
pub proof fn lists_are_seen_one_by_one<T: View>(
    items: Seq<T>,
    lines: Seq<Vec<u8>>,
    strings: Seq<String>,
    parts: Seq<Part>,
    sets: Seq<RuleSet>,
)
    ensures
        sorting::views_of(items).len() == items.len(),
        forall|i: int|
            #![trigger sorting::views_of(items)[i]]
            0 <= i < items.len() ==> sorting::views_of(items)[i] == items[i]@,
        text::views(lines).len() == lines.len(),
        forall|i: int|
            #![trigger text::views(lines)[i]]
            0 <= i < lines.len() ==> text::views(lines)[i] == lines[i]@,
        text::texts(strings).len() == strings.len(),
        forall|i: int|
            #![trigger text::texts(strings)[i]]
            0 <= i < strings.len() ==> text::texts(strings)[i] == strings[i]@,
        order::parts_view(parts).len() == parts.len(),
        forall|i: int|
            #![trigger order::parts_view(parts)[i]]
            0 <= i < parts.len() ==> order::parts_view(parts)[i] == (parts[i].rank, parts[i].text@),
        rules::rule_views(sets).len() == sets.len(),
        forall|i: int|
            #![trigger rules::rule_views(sets)[i]]
            0 <= i < sets.len() ==> rules::rule_views(sets)[i] == sets[i]@,
{
}

/// A status report is seen by its bytes.
pub proof fn reports_are_seen_as_they_are(report: Vec<u8>)
    ensures
        git::report_view(None) is None,
        git::report_view(Some(report)) == Some(report@),
{
}

/// A scan has the switches that it was given.
pub proof fn options_are_taken_as_given(options: ScanOptions)
    ensures
        options.flags().ignore_hidden == options.ignore_hidden,
        options.flags().full_path == options.full_path,
        options.flags().respect_gitignore == options.respect_gitignore,
        options.flags().ignored_mode == options.ignored_mode,
        options.flags().follow_symlinks == options.follow_symlinks,
{
}

/// Rules are asked for what they say of the path and nothing else.
pub proof fn rules_are_asked_for_the_path(rule: RuleView, path: Seq<u8>, is_dir: bool)
    ensures
        rule.verdict(path, is_dir) == rules::rule_verdict(rule.root, rule.lines, path, is_dir),
{
}

/// A scan asks for what is due: what is found under the path that it is at, the ignore file or the
/// entries of the directory that it is at, or a signal.
pub proof fn scans_ask_for_what_is_due(request: ScanRequest<'_>, walk: WalkView)
    requires
        request.is_for(walk),
    ensures
        match walk.stage {
            StageView::Lookup(job) => {
                &&& request matches ScanRequest::Lookup { path, follow_symlinks }
                &&& paths::path_view(*path) == job.path
                &&& follow_symlinks == walk.flags.follow_symlinks
            },
            StageView::Rules(job, _) => {
                &&& request matches ScanRequest::IgnoreFile(path)
                &&& paths::path_view(*path) == job.path
            },
            StageView::Listing(job, _, _) => {
                &&& request matches ScanRequest::Listing(path)
                &&& paths::path_view(*path) == job.path
            },
            StageView::MetaGate(..) => request is Count,
            StageView::Done(_) => request is Ended,
            StageView::Overflow => request is Overflow,
            _ => request is Signal,
        },
{
}

/// A measurement asks for what is due, and one that has ended gives its total.
pub proof fn measurements_ask_for_what_is_due(request: MeasureRequest<'_>, walk: MeasureView)
    requires
        request.is_for(walk),
    ensures
        match walk.stage {
            MeasureStage::Lookup(at) => {
                &&& request matches MeasureRequest::Lookup { path, follow_symlinks }
                &&& paths::path_view(*path) == at
                &&& follow_symlinks == walk.follow_symlinks
            },
            MeasureStage::Listing(at) => {
                &&& request matches MeasureRequest::Listing(path)
                &&& paths::path_view(*path) == at
            },
            MeasureStage::Done => request matches MeasureRequest::Done(size) && size == walk.total,
            MeasureStage::Overflow => request is Overflow,
        },
{
}

/// A tour asks for what is due.
pub proof fn tours_ask_for_what_is_due(request: TourRequest<'_>, tour: TourView)
    requires
        request.is_for(tour),
    ensures
        match tour.stage {
            TourStage::Lookup(at) => {
                &&& request matches TourRequest::Lookup(path)
                &&& paths::path_view(*path) == at
            },
            TourStage::Arrived(at) => {
                &&& request matches TourRequest::Decision(path)
                &&& paths::path_view(*path) == at
            },
            TourStage::Listing(at) => {
                &&& request matches TourRequest::Listing(path)
                &&& paths::path_view(*path) == at
            },
            TourStage::Done => request is Done,
        },
{
}

/// A search for repositories asks for what is due: at a directory first whether it has a `.git`
/// entry, then for its status.
pub proof fn repo_searches_ask_for_what_is_due(request: RepoRequest<'_>, search: RepoSearchView)
    requires
        request.is_for(search),
    ensures
        match search.tour.stage {
            TourStage::Lookup(at) => {
                &&& request matches RepoRequest::Lookup { path, follow_symlinks }
                &&& paths::path_view(*path) == at
                &&& follow_symlinks == search.tour.flags.follow_symlinks
            },
            TourStage::Arrived(at) => if search.is_repo {
                &&& request matches RepoRequest::Status(path)
                &&& paths::path_view(*path) == at
            } else {
                &&& request matches RepoRequest::HasGit(path)
                &&& paths::path_view(*path) == at
            },
            TourStage::Listing(at) => {
                &&& request matches RepoRequest::Listing(path)
                &&& paths::path_view(*path) == at
            },
            TourStage::Done => request is Done,
        },
{
}

/// A search for candidates asks for what the part of it asks for that it is at.
pub proof fn candidate_searches_ask_for_what_is_due(
    request: CandidateRequest<'_>,
    search: SearchView,
)
    requires
        request.is_for(search),
    ensures
        match search.task {
            TaskView::Tour(_, tour) => {
                &&& tour.stage matches TourStage::Lookup(at) ==> {
                    &&& request matches CandidateRequest::Lookup { path, follow_symlinks }
                    &&& paths::path_view(*path) == at
                    &&& follow_symlinks == search.follow_symlinks
                }
                &&& tour.stage matches TourStage::Listing(at) ==> {
                    &&& request matches CandidateRequest::Listing(path)
                    &&& paths::path_view(*path) == at
                }
            },
            TaskView::Scan(walk) => match walk.stage {
                StageView::Lookup(job) => {
                    &&& request matches CandidateRequest::Lookup { path, follow_symlinks }
                    &&& paths::path_view(*path) == job.path
                    &&& follow_symlinks == search.follow_symlinks
                },
                StageView::Rules(job, _) => {
                    &&& request matches CandidateRequest::IgnoreFile(path)
                    &&& paths::path_view(*path) == job.path
                },
                StageView::Listing(job, _, _) => {
                    &&& request matches CandidateRequest::Listing(path)
                    &&& paths::path_view(*path) == job.path
                },
                _ => request is Gate,
            },
            TaskView::Measure(_, _, walk) => {
                &&& walk.stage matches MeasureStage::Lookup(at) ==> {
                    &&& request matches CandidateRequest::Lookup { path, follow_symlinks }
                    &&& paths::path_view(*path) == at
                    &&& follow_symlinks == search.follow_symlinks
                }
                &&& walk.stage matches MeasureStage::Listing(at) ==> {
                    &&& request matches CandidateRequest::Listing(path)
                    &&& paths::path_view(*path) == at
                }
            },
            TaskView::Done => request is Done,
            TaskView::Overflow => request is Overflow,
        },
{
}

/// A removal asks first what is under its path, and then for that path to be removed.
pub proof fn removals_ask_for_what_is_due(
    request: DeletionRequest<'_>,
    at: PathView,
    stage: DeletionStage<String>,
)
    requires
        request.is_for(at, stage),
    ensures
        match stage {
            DeletionStage::Inspect => {
                &&& request matches DeletionRequest::Inspect(path)
                &&& paths::path_view(*path) == at
            },
            DeletionStage::RemoveTree => {
                &&& request matches DeletionRequest::RemoveTree(path)
                &&& paths::path_view(*path) == at
            },
            DeletionStage::RemoveFile => {
                &&& request matches DeletionRequest::RemoveFile(path)
                &&& paths::path_view(*path) == at
            },
            DeletionStage::Done(_) => request is Done,
        },
{
}

} // verus!
