//! What holds of every search for repositories with uncommitted changes.

use crate::dir_walk::{DirFlags, TourStage};
use crate::git;
use crate::git::{DirtyGitRepo, RepoSearchView, RepoView};
use crate::order;
use crate::order::Order;
use crate::paths::PathView;
use crate::sorting;
use crate::sorting::Ranked;
use crate::text;
use crate::tour_laws;
use crate::world::World;
use vstd::prelude::*;

verus! {

/// How many changes are to be reported for a status report: as many as it has lines that hold
/// something other than white space, in 32 bits.
pub open spec fn lines_reported(report: Option<Seq<u8>>) -> u32 {
    match report {
        Some(bytes) => (text::filled_lines(bytes) as int % 0x1_0000_0000) as u32,
        None => 0,
    }
}

/// What is to be reported of a directory: that it is a repository with uncommitted changes, and their
/// number, where it has a `.git` entry and its status can be had and lists any.
pub open spec fn report_on(world: World, path: PathView) -> Option<RepoView> {
    let count = lines_reported((world.status)(path));
    if (world.has_git)(path) && count > 0 {
        Some(RepoView { path, dirty_entries: count })
    } else {
        None
    }
}

proof fn dirty_are_reported(world: World, arrived: Seq<PathView>)
    ensures
        git::dirty_among(world, arrived) == arrived.filter_map(
            |path: PathView| report_on(world, path),
        ),
    decreases arrived.len(),
{
    let all = arrived.filter_map(|path: PathView| report_on(world, path));
    if arrived.len() > 0 {
        dirty_are_reported(world, arrived.drop_last());
        assert(git::dirty_among(world, arrived) =~= all);
    }
}

/// A search reports exactly the repositories with uncommitted changes that it comes to, with their
/// numbers of changes. It comes to every root that is a directory and, in every directory that is not
/// reported, to every entry that is one; but for hidden ones where they are left out, for those named
/// `.git`, and, where links are followed, for a directory that it came to under another path. It
/// comes nowhere else, and so nowhere below a repository that is reported but on another way.
pub proof fn search_misses_nothing(world: World, flags: DirFlags, roots: Seq<PathView>, fuel: nat)
    requires
        git::searched(world, flags, roots, fuel) is Some,
    ensures
        ({
            let end = git::searched(world, flags, roots, fuel)->0;
            let last = RepoSearchView::start(flags, roots).run(world, end.answers);
            let env = git::repo_tour(world, flags);
            &&& env.world == world
            &&& env.flags == flags
            &&& forall|path: PathView| #[trigger]
                (env.enters)(path) <==> report_on(world, path) is None
            &&& last.tour.stage is Done
            &&& last.found == end.arrived.filter_map(|path: PathView| report_on(world, path))
            &&& forall|i: int| 0 <= i < roots.len() ==> env.has_met(end.arrived, #[trigger] roots[i])
            &&& forall|i: int|
                #![trigger end.arrived[i]]
                0 <= i < end.arrived.len() ==> env.has_searched(end.arrived, i) && env.was_led_to(
                    roots,
                    end.arrived,
                    i,
                )
        }),
{
    let end = git::searched(world, flags, roots, fuel)->0;
    git::search_completes(world, flags, roots, fuel);
    dirty_are_reported(world, end.arrived);
    git::repo_tour(world, flags).tour_misses_nothing(roots, fuel);
}

/// Where links are not followed, a directory is come to as often as it stands among the roots and
/// among the entries of the directories that are come to and not reported.
pub proof fn search_repeats_nothing(
    world: World,
    flags: DirFlags,
    roots: Seq<PathView>,
    path: PathView,
    fuel: nat,
)
    requires
        !flags.follow_symlinks,
        (world.lookup)(path).link matches Some(meta) && meta.is_dir(),
        !(flags.ignore_hidden && path.is_hidden()),
    ensures
        git::searched(world, flags, roots, fuel) matches Some(end) ==> tour_laws::occurrences(
            end.arrived,
            path,
        ) == tour_laws::occurrences(roots, path) + git::repo_tour(world, flags).led_by_all(
            end.arrived,
            path,
        ),
{
    git::repo_tour(world, flags).tour_comes_as_often_as_led(roots, path, fuel);
}

/// Repositories are listed by path. All that were found are listed and nothing else.
pub proof fn repositories_stand_by_path(found: Seq<RepoView>, listed: Seq<RepoView>)
    requires
        sorting::is_sorted_from::<DirtyGitRepo>(found, listed),
    ensures
        listed.len() == found.len(),
        forall|repo: RepoView| found.contains(repo) <==> listed.contains(repo),
        forall|i: int, j: int|
            #![trigger listed[i], listed[j]]
            0 <= i < j < listed.len() ==> order::parts_order(
                listed[j].path.parts,
                listed[i].path.parts,
            ) != Order::Less,
{
    sorting::sorting_orders::<DirtyGitRepo>(found, listed);
    assert forall|i: int, j: int|
        #![trigger listed[i], listed[j]]
        0 <= i < j < listed.len() implies order::parts_order(
        listed[j].path.parts,
        listed[i].path.parts,
    ) != Order::Less by {
        assert(DirtyGitRepo::placed(listed[i], listed[j]) != Order::Greater);
        order::parts_order_is_antisymmetric(listed[i].path.parts, listed[j].path.parts);
    }
}

/// What an answer about a directory that a search has come to does. One without a `.git` entry is
/// gone into. One with such an entry is reported and passed by where its status lists changes, and
/// gone into where it lists none or cannot be had.
pub proof fn answers_decide(
    search: RepoSearchView,
    path: PathView,
    report: Option<Seq<u8>>,
)
    requires
        search.tour.stage == TourStage::Arrived(path),
    ensures
        search.on_has_git(true) == (RepoSearchView { is_repo: true, ..search }),
        search.on_has_git(false) == (RepoSearchView {
            tour: search.tour.on_decision(true),
            ..search
        }),
        ({
            let count = lines_reported(report);
            let next = search.on_status(report);
            &&& !next.is_repo
            &&& count > 0 ==> {
                &&& next.found == search.found.push(RepoView { path, dirty_entries: count })
                &&& next.tour == search.tour.on_decision(false)
            }
            &&& count == 0 ==> {
                &&& next.found == search.found
                &&& next.tour == search.tour.on_decision(true)
            }
        }),
{
}

/// A status report lists as many changes as it has lines that hold something other than white space,
/// in 32 bits, and one that cannot be had says nothing.
pub proof fn report_is_counted(report: Option<Seq<u8>>)
    ensures
        report is None <==> git::listed_changes(report) is None,
        report is Some ==> git::listed_changes(report) == Some(lines_reported(report)),
{
}

} // verus!
