//! Finding repositories with changes that have not been committed.
//!
//! The directories below the roots are gone through. A repository with uncommitted changes is
//! reported and not gone into; any other directory is, so that repositories inside a clean one are
//! still found.

use crate::dir_walk::{DirFlags, DirWalk, TourEnv, TourRequest, TourStage, TourView, Toured};
use crate::metadata::Lookup;
use crate::order;
use crate::order::Order;
use crate::paths;
use crate::paths::PathView;
use crate::sorting;
use crate::sorting::Ranked;
use crate::text;
use crate::world;
use crate::world::{DirItem, ItemView, World};
use std::path::PathBuf;
use vstd::prelude::*;
use vstd::utf8;

verus! {

/// What to search.
#[derive(Clone, Debug)]
pub struct DirtyGitRepoOptions {
    pub roots: Vec<PathBuf>,
    /// Leave out hidden entries. The `.git` entry of a repository is never gone into, whatever this
    /// says.
    pub ignore_hidden: bool,
    /// Go into directories behind symbolic links.
    pub follow_symlinks: bool,
}

impl DirtyGitRepoOptions {
    pub open spec fn flags(self) -> DirFlags {
        DirFlags {
            ignore_hidden: self.ignore_hidden,
            follow_symlinks: self.follow_symlinks,
            skip_git: true,
        }
    }
}

/// A repository with uncommitted changes.
#[derive(Clone, Debug)]
pub struct DirtyGitRepo {
    pub path: PathBuf,
    /// How many entries `git status --porcelain` reports.
    pub dirty_entries: u32,
}

/// A repository with uncommitted changes, as the contracts see it.
pub struct RepoView {
    pub path: PathView,
    pub dirty_entries: u32,
}

impl View for DirtyGitRepo {
    type V = RepoView;

    open spec fn view(&self) -> RepoView {
        RepoView { path: paths::path_view(self.path), dirty_entries: self.dirty_entries }
    }
}

impl Ranked for DirtyGitRepo {
    /// Repositories are listed by path.
    open spec fn placed(a: RepoView, b: RepoView) -> Order {
        order::parts_order(a.path.parts, b.path.parts)
    }

    proof fn order_is_total(a: RepoView, b: RepoView, c: RepoView) {
        order::parts_order_is_antisymmetric(a.path.parts, a.path.parts);
        order::parts_order_is_antisymmetric(a.path.parts, b.path.parts);
        if Self::placed(a, b) != Order::Greater && Self::placed(b, c) != Order::Greater {
            order::parts_order_is_transitive(a.path.parts, b.path.parts, c.path.parts);
        }
    }

    fn order(&self, other: &Self) -> (order: Order) {
        order::order_parts(&paths::components(&self.path), &paths::components(&other.path))
    }
}

/// How many changes a status report lists, if there is one: its lines that hold more than white
/// space, whatever their encoding.
pub open spec fn listed_changes(report: Option<Seq<u8>>) -> Option<u32> {
    match report {
        Some(bytes) => Some((text::filled_lines(bytes) as int % 0x1_0000_0000) as u32),
        None => None,
    }
}

pub open spec fn report_view(report: Option<Vec<u8>>) -> Option<Seq<u8>> {
    match report {
        Some(bytes) => Some(bytes@),
        None => None,
    }
}

/// Counts the changes in what `git status --porcelain` printed, which is `None` when it failed.
pub fn uncommitted_entries(report: Option<Vec<u8>>) -> (count: Option<u32>)
    ensures
        count == listed_changes(report_view(report)),
{
    match report {
        None => None,
        Some(bytes) => Some(text::count_filled_lines(&bytes)),
    }
}

/// A report that is readable as a whole lists as many changes as its text has lines that hold more
/// than white space.
pub proof fn readable_report_lists_its_lines(bytes: Seq<u8>)
    requires
        utf8::valid_utf8(bytes),
    ensures
        listed_changes(Some(bytes)) == Some(
            (text::inked_lines(utf8::decode_utf8(bytes), false) as int % 0x1_0000_0000) as u32,
        ),
{
    text::readable_lines_count(bytes);
}

/// The number of uncommitted changes in a directory, zero where it is no repository or its status
/// cannot be had.
pub open spec fn changes_in(world: World, path: PathView) -> u32 {
    match listed_changes((world.status)(path)) {
        Some(count) if (world.has_git)(path) => count,
        _ => 0,
    }
}

/// How the directories are gone through: a repository with uncommitted changes is not gone into, and
/// one look tells whether there is a repository, a second one how many changes it has.
pub open spec fn repo_tour(world: World, flags: DirFlags) -> TourEnv {
    TourEnv {
        world,
        flags,
        enters: |path: PathView| changes_in(world, path) == 0,
        cost: |path: PathView|
            if (world.has_git)(path) {
                2nat
            } else {
                1nat
            },
    }
}

/// Those of a list of directories that are repositories with uncommitted changes.
pub open spec fn dirty_among(world: World, arrived: Seq<PathView>) -> Seq<RepoView>
    decreases arrived.len(),
{
    if arrived.len() == 0 {
        Seq::empty()
    } else {
        let before = dirty_among(world, arrived.drop_last());
        let changes = changes_in(world, arrived.last());
        if changes > 0 {
            before.push(RepoView { path: arrived.last(), dirty_entries: changes })
        } else {
            before
        }
    }
}

/// The state of a search.
pub struct RepoSearchView {
    pub tour: TourView,
    /// Whether the directory that the tour has come to is known to be a repository.
    pub is_repo: bool,
    /// The repositories with uncommitted changes that were found so far.
    pub found: Seq<RepoView>,
}

impl RepoSearchView {
    /// A search that is about to begin.
    pub open spec fn start(flags: DirFlags, roots: Seq<PathView>) -> RepoSearchView {
        RepoSearchView { tour: TourView::start(flags, roots), is_repo: false, found: Seq::empty() }
    }

    /// The search has learned what is found under the path that it asked about.
    pub open spec fn on_lookup(self, lookup: Lookup) -> RepoSearchView {
        RepoSearchView { tour: self.tour.on_lookup(lookup), ..self }
    }

    /// The search has learned whether the directory that it asked about has a `.git` entry.
    pub open spec fn on_has_git(self, has_git: bool) -> RepoSearchView {
        if has_git {
            RepoSearchView { is_repo: true, ..self }
        } else {
            RepoSearchView { tour: self.tour.on_decision(true), ..self }
        }
    }

    /// The search has learned the status of the repository that it asked about.
    pub open spec fn on_status(self, report: Option<Seq<u8>>) -> RepoSearchView {
        match listed_changes(report) {
            Some(count) if count > 0 => RepoSearchView {
                tour: self.tour.on_decision(false),
                is_repo: false,
                found: self.found.push(
                    RepoView { path: self.tour.stage->Arrived_0, dirty_entries: count },
                ),
            },
            _ => RepoSearchView { tour: self.tour.on_decision(true), is_repo: false, ..self },
        }
    }

    /// The search has learned the entries of the directory that it asked about.
    pub open spec fn on_listing(self, listing: Option<Seq<ItemView>>) -> RepoSearchView {
        RepoSearchView { tour: self.tour.on_listing(listing), ..self }
    }

    /// Whether the search is in a state that it can come to.
    pub open spec fn wf(self) -> bool {
        &&& self.tour.wf()
        &&& self.is_repo ==> self.tour.stage is Arrived
    }

    /// The search after one more answer in a file system that holds still.
    pub open spec fn step(self, world: World) -> RepoSearchView {
        match self.tour.stage {
            TourStage::Lookup(path) => self.on_lookup((world.lookup)(path)),
            TourStage::Arrived(path) => if self.is_repo {
                self.on_status((world.status)(path))
            } else {
                self.on_has_git((world.has_git)(path))
            },
            TourStage::Listing(path) => self.on_listing((world.listing)(path)),
            TourStage::Done => self,
        }
    }

    pub open spec fn run(self, world: World, times: nat) -> RepoSearchView
        decreases times,
    {
        if times == 0 {
            self
        } else {
            self.step(world).run(world, (times - 1) as nat)
        }
    }

    /// What the search comes to in a file system that holds still, where it has come to `arrived`
    /// and has had `answers` answers.
    pub open spec fn forecast(
        self,
        world: World,
        arrived: Seq<PathView>,
        answers: nat,
        fuel: nat,
    ) -> Option<Toured> {
        let asked = if self.is_repo {
            1int
        } else {
            0int
        };
        self.tour.forecast(
            repo_tour(world, self.tour.flags),
            arrived,
            (answers - asked) as nat,
            fuel,
        )
    }

    /// Whether what the search knows is what it would find: the repositories among the directories
    /// that it has come to, and that the one it stands at is one.
    pub open spec fn is_true_of(self, world: World, arrived: Seq<PathView>, answers: nat) -> bool {
        &&& self.wf()
        &&& self.found == dirty_among(world, arrived)
        &&& self.is_repo ==> answers > 0 && (world.has_git)(self.tour.stage->Arrived_0)
    }

    /// The directories that the search has come to after one more answer.
    pub open spec fn arrived_after(self, world: World, arrived: Seq<PathView>) -> Seq<PathView> {
        match self.tour.stage {
            TourStage::Arrived(path) if self.is_repo || !(world.has_git)(path) => arrived.push(path),
            _ => arrived,
        }
    }

    /// No answer changes what a search comes to.
    pub proof fn step_keeps_forecast(
        self,
        world: World,
        arrived: Seq<PathView>,
        answers: nat,
        fuel: nat,
    )
        requires
            self.is_true_of(world, arrived, answers),
            !(self.tour.stage is Done),
            self.forecast(world, arrived, answers, fuel) is Some,
        ensures
            ({
                let next = self.step(world);
                let now = self.arrived_after(world, arrived);
                &&& next.is_true_of(world, now, answers + 1)
                &&& next.forecast(world, now, answers + 1, fuel) == self.forecast(
                    world,
                    arrived,
                    answers,
                    fuel,
                )
            }),
    {
        let env = repo_tour(world, self.tour.flags);
        match self.tour.stage {
            TourStage::Lookup(path) => {
                self.tour.next_is_wf();
                self.tour.lookup_keeps_forecast(env, arrived, answers, fuel);
            },
            TourStage::Arrived(path) => {
                self.tour.next_is_wf();
                assert(arrived.push(path).drop_last() =~= arrived);
                if self.is_repo {
                    self.tour.decision_keeps_forecast(env, arrived, (answers - 1) as nat, fuel);
                } else if !(world.has_git)(path) {
                    self.tour.decision_keeps_forecast(env, arrived, answers, fuel);
                }
            },
            TourStage::Listing(path) => {
                TourView {
                    pending: env.inside(path) + self.tour.pending,
                    ..self.tour
                }.next_is_wf();
                self.tour.listing_keeps_forecast(env, arrived, answers, fuel);
            },
            TourStage::Done => {},
        }
    }

    proof fn forecast_is_ahead(
        self,
        world: World,
        arrived: Seq<PathView>,
        answers: nat,
        fuel: nat,
    )
        requires
            self.is_true_of(world, arrived, answers),
        ensures
            self.forecast(world, arrived, answers, fuel) matches Some(end) ==> answers <= end.answers
                && (self.tour.stage is Done ==> end.answers == answers && end.arrived == arrived),
    {
        let env = repo_tour(world, self.tour.flags);
        if self.is_repo {
            self.tour.forecast_is_ahead(env, arrived, (answers - 1) as nat, fuel);
        } else {
            self.tour.forecast_is_ahead(env, arrived, answers, fuel);
        }
    }

    /// A search in a file system that holds still ends after as many answers as the forecast says,
    /// and has then found the repositories with uncommitted changes among the directories that the
    /// forecast says it comes to.
    pub proof fn run_meets_forecast(
        self,
        world: World,
        arrived: Seq<PathView>,
        answers: nat,
        fuel: nat,
    )
        requires
            self.is_true_of(world, arrived, answers),
            self.forecast(world, arrived, answers, fuel) is Some,
        ensures
            ({
                let end = self.forecast(world, arrived, answers, fuel)->0;
                let last = self.run(world, (end.answers - answers) as nat);
                &&& answers <= end.answers
                &&& last.tour.stage is Done
                &&& last.found == dirty_among(world, end.arrived)
            }),
        decreases (self.forecast(world, arrived, answers, fuel)->0).answers - answers,
    {
        self.forecast_is_ahead(world, arrived, answers, fuel);
        if !(self.tour.stage is Done) {
            let next = self.step(world);
            let now = self.arrived_after(world, arrived);
            self.step_keeps_forecast(world, arrived, answers, fuel);
            next.forecast_is_ahead(world, now, answers + 1, fuel);
            next.run_meets_forecast(world, now, answers + 1, fuel);
        }
    }
}

/// What a search of a file system that holds still goes through.
pub open spec fn searched(
    world: World,
    flags: DirFlags,
    roots: Seq<PathView>,
    fuel: nat,
) -> Option<Toured> {
    repo_tour(world, flags).with_paths(
        roots,
        Toured { arrived: Seq::empty(), seen: Set::empty(), answers: 0 },
        fuel,
    )
}

/// A search of a file system that holds still finds the repositories with uncommitted changes among
/// the directories that it goes through.
pub proof fn search_completes(world: World, flags: DirFlags, roots: Seq<PathView>, fuel: nat)
    requires
        searched(world, flags, roots, fuel) is Some,
    ensures
        ({
            let end = searched(world, flags, roots, fuel)->0;
            let last = RepoSearchView::start(flags, roots).run(world, end.answers);
            &&& last.tour.stage is Done
            &&& last.found == dirty_among(world, end.arrived)
        }),
{
    let start = RepoSearchView::start(flags, roots);
    let before = TourView { flags, pending: roots, seen: Set::empty(), stage: TourStage::Done };
    before.next_is_wf();
    before.next_keeps_forecast(repo_tour(world, flags), Seq::empty(), 0, fuel);
    start.run_meets_forecast(world, Seq::empty(), 0, fuel);
}

/// A search only comes to directories, to none that is hidden where hidden ones are left out, to none
/// that is named `.git` but for a root, and, where links are followed, to none twice.
pub proof fn search_is_proper(world: World, flags: DirFlags, roots: Seq<PathView>, fuel: nat)
    ensures
        searched(world, flags, roots, fuel) matches Some(end) ==> repo_tour(world, flags).is_proper(
            roots,
            end,
        ),
{
    repo_tour(world, flags).paths_are_proper(
        roots,
        roots,
        Toured { arrived: Seq::empty(), seen: Set::empty(), answers: 0 },
        fuel,
    );
}

/// A search that follows links comes to an end even where they lead in circles.
pub proof fn search_is_finite(
    world: World,
    flags: DirFlags,
    roots: Seq<PathView>,
    keys: Set<(u64, u64)>,
)
    requires
        flags.follow_symlinks,
        keys.finite(),
        repo_tour(world, flags).has_keys(keys),
    ensures
        searched(world, flags, roots, keys.len() + 1) is Some,
{
    assert(keys.difference(Set::empty()) =~= keys);
    repo_tour(world, flags).paths_are_finite(
        roots,
        Toured { arrived: Seq::empty(), seen: Set::empty(), answers: 0 },
        keys.len() + 1,
        keys,
    );
}

/// What is reported is what was gone through and has uncommitted changes, with their number.
pub proof fn reported_are_dirty(world: World, arrived: Seq<PathView>)
    ensures
        forall|repo: RepoView|
            #![trigger dirty_among(world, arrived).contains(repo)]
            dirty_among(world, arrived).contains(repo) <==> arrived.contains(repo.path)
                && repo.dirty_entries > 0 && repo.dirty_entries == changes_in(world, repo.path),
    decreases arrived.len(),
{
    let all = dirty_among(world, arrived);
    if arrived.len() > 0 {
        let shorter = arrived.drop_last();
        let last = arrived.last();
        reported_are_dirty(world, shorter);
        assert forall|repo: RepoView| all.contains(repo) <==> arrived.contains(repo.path)
            && repo.dirty_entries > 0 && repo.dirty_entries == changes_in(world, repo.path) by {
            let before = dirty_among(world, shorter);
            assert(arrived =~= shorter.push(last));
            assert(arrived.contains(repo.path) <==> shorter.contains(repo.path) || repo.path == last)
                by {
                if shorter.contains(repo.path) {
                    let i = choose|i: int| 0 <= i < shorter.len() && shorter[i] == repo.path;
                    assert(arrived[i] == repo.path);
                }
                assert(arrived[arrived.len() - 1] == last);
            }
            assert(before.contains(repo) ==> all.contains(repo)) by {
                if before.contains(repo) {
                    let i = choose|i: int| 0 <= i < before.len() && before[i] == repo;
                    assert(all[i] == repo);
                }
            }
            if changes_in(world, last) > 0 {
                assert(all[all.len() - 1] == RepoView {
                    path: last,
                    dirty_entries: changes_in(world, last),
                });
            }
        }
    }
}

/// What a search waits for.
pub enum RepoRequest<'a> {
    /// What is found under the path, with what a symbolic link leads to where links are followed;
    /// answered by `looked_up`.
    Lookup { path: &'a PathBuf, follow_symlinks: bool },
    /// Whether the directory has a `.git` entry; answered by `git_entry`.
    HasGit(&'a PathBuf),
    /// What `git status --porcelain` prints in the repository; answered by `status`.
    Status(&'a PathBuf),
    /// The entries of the directory; answered by `listed`.
    Listing(&'a PathBuf),
    /// Nothing: the search has ended.
    Done,
}

impl<'a> RepoRequest<'a> {
    /// Whether this is what a search in the given state waits for.
    pub open spec fn is_for(self, search: RepoSearchView) -> bool {
        match self {
            RepoRequest::Lookup { path, follow_symlinks } => {
                &&& search.tour.stage == TourStage::Lookup(paths::path_view(*path))
                &&& follow_symlinks == search.tour.flags.follow_symlinks
            },
            RepoRequest::HasGit(path) => {
                &&& search.tour.stage == TourStage::Arrived(paths::path_view(*path))
                &&& !search.is_repo
            },
            RepoRequest::Status(path) => {
                &&& search.tour.stage == TourStage::Arrived(paths::path_view(*path))
                &&& search.is_repo
            },
            RepoRequest::Listing(path) => search.tour.stage == TourStage::Listing(
                paths::path_view(*path),
            ),
            RepoRequest::Done => search.tour.stage is Done,
        }
    }
}

/// A search under way. It waits for one answer at a time.
pub struct RepoSearch {
    walk: DirWalk,
    is_repo: bool,
    found: Vec<DirtyGitRepo>,
}

impl View for RepoSearch {
    type V = RepoSearchView;

    closed spec fn view(&self) -> RepoSearchView {
        RepoSearchView {
            tour: self.walk@,
            is_repo: self.is_repo,
            found: sorting::views_of(self.found@),
        }
    }
}

impl RepoSearch {
    /// What the search waits for.
    pub fn request(&self) -> (request: RepoRequest<'_>)
        ensures
            request.is_for(self@),
    {
        match self.walk.request() {
            TourRequest::Lookup(path) => RepoRequest::Lookup {
                path,
                follow_symlinks: self.walk.follows_symlinks(),
            },
            TourRequest::Decision(path) => if self.is_repo {
                RepoRequest::Status(path)
            } else {
                RepoRequest::HasGit(path)
            },
            TourRequest::Listing(path) => RepoRequest::Listing(path),
            TourRequest::Done => RepoRequest::Done,
        }
    }

    /// Goes on after the path that was asked about has been looked up.
    pub fn looked_up(self, lookup: Lookup) -> (search: RepoSearch)
        requires
            self@.tour.stage is Lookup,
        ensures
            search@ == self@.on_lookup(lookup),
    {
        RepoSearch { walk: self.walk.looked_up(lookup), is_repo: self.is_repo, found: self.found }
    }

    /// Goes on after it has been seen whether the directory that was asked about has a `.git` entry.
    pub fn git_entry(self, has_git: bool) -> (search: RepoSearch)
        requires
            self@.tour.stage is Arrived,
            !self@.is_repo,
        ensures
            search@ == self@.on_has_git(has_git),
    {
        if has_git {
            RepoSearch { walk: self.walk, is_repo: true, found: self.found }
        } else {
            RepoSearch { walk: self.walk.decided(true), is_repo: self.is_repo, found: self.found }
        }
    }

    /// Goes on after the status of the repository that was asked about has been read. `None` says
    /// that it could not be had.
    pub fn status(self, report: Option<Vec<u8>>) -> (search: RepoSearch)
        requires
            self@.tour.stage is Arrived,
            self@.is_repo,
        ensures
            search@ == self@.on_status(report_view(report)),
    {
        let mut found = self.found;
        let mut enter: bool = true;
        if let Some(dirty_entries) = uncommitted_entries(report) {
            if dirty_entries > 0 {
                if let TourRequest::Decision(path) = self.walk.request() {
                    let ghost before = found@;
                    let repo = DirtyGitRepo { path: path.clone(), dirty_entries };
                    found.push(repo);
                    assert(sorting::views_of(found@) =~= sorting::views_of(before).push(repo@));
                }
                enter = false;
            }
        }
        RepoSearch { walk: self.walk.decided(enter), is_repo: false, found }
    }

    /// Goes on after the entries of the directory that was asked about have been read.
    pub fn listed(self, listing: Option<Vec<DirItem>>) -> (search: RepoSearch)
        requires
            self@.tour.stage is Listing,
        ensures
            search@ == self@.on_listing(world::listing_view(listing)),
    {
        RepoSearch { walk: self.walk.listed(listing), is_repo: self.is_repo, found: self.found }
    }

    /// The repositories with uncommitted changes that were found, in the order of their paths.
    pub fn into_repos(self) -> (repos: Vec<DirtyGitRepo>)
        requires
            self@.tour.stage is Done,
        ensures
            sorting::is_sorted_from::<DirtyGitRepo>(self@.found, sorting::views_of(repos@)),
    {
        sorting::sort(self.found)
    }
}

/// Begins a search for repositories with uncommitted changes.
pub fn find_dirty_git_repos(options: DirtyGitRepoOptions) -> (search: RepoSearch)
    ensures
        search@ == RepoSearchView::start(options.flags(), paths::path_views(options.roots@)),
        search@.tour.flags == (DirFlags {
            ignore_hidden: options.ignore_hidden,
            follow_symlinks: options.follow_symlinks,
            skip_git: true,
        }),
        search@.found.len() == 0,
        !search@.is_repo,
{
    proof {
        TourView {
            flags: options.flags(),
            pending: paths::path_views(options.roots@),
            seen: Set::empty(),
            stage: TourStage::Done,
        }.next_is_wf();
    }
    let flags = DirFlags {
        ignore_hidden: options.ignore_hidden,
        follow_symlinks: options.follow_symlinks,
        skip_git: true,
    };
    let search = RepoSearch {
        walk: DirWalk::new(&options.roots, flags),
        is_repo: false,
        found: Vec::new(),
    };
    assert(search@.found =~= Seq::<RepoView>::empty());
    search
}

} // verus!
