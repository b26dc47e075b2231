//! What holds of every search for cleanup candidates.

use crate::candidate_model;
use crate::candidate_model::{SearchView, SourceView, TaskView};
use crate::clean::{CandidateView, CleanupPreset};
use crate::control::ScanControl;
use crate::dir_walk::{DirFlags, TourEnv, TourStage, TourView, Toured};
use crate::measure::{MeasureEnv, MeasureStage, MeasureView, Measured};
use crate::metadata::Lookup;
use crate::paths::PathView;
use crate::scan_laws;
use crate::scan_model::ScanFlags;
use crate::scan_steps::WalkView;
use crate::world::{ItemView, World};
use vstd::prelude::*;

verus! {

/// Whether a candidate is one that its preset accounts for: it says why it can be cleaned up, and a
/// preset that goes by name only lists directories with that name.
pub open spec fn is_justified(candidate: CandidateView) -> bool {
    &&& candidate.reason == candidate_model::reason_of(candidate.preset)
    &&& candidate.ignored == (candidate.preset == CleanupPreset::Gitignored)
    &&& candidate.preset == CleanupPreset::Gitignored || candidate_model::is_named(
        candidate.path,
        candidate.preset,
    )
}

impl SearchView {
    /// Whether no path is among the candidates twice, and every candidate is justified.
    pub open spec fn has_good_candidates(self) -> bool {
        &&& forall|i: int|
            #![trigger self.candidates[i]]
            0 <= i < self.candidates.len() ==> is_justified(self.candidates[i])
                && self.seen.contains(self.candidates[i].path.parts)
        &&& forall|i: int, j: int|
            #![trigger self.candidates[i], self.candidates[j]]
            0 <= i < j < self.candidates.len() ==> self.candidates[i].path.parts
                != self.candidates[j].path.parts
    }

    /// Whether that holds and will go on to hold: a path that is being measured has not become a
    /// candidate yet.
    pub open spec fn is_sound(self) -> bool {
        &&& self.has_good_candidates()
        &&& self.task matches TaskView::Measure(source, path, _) ==> {
            &&& self.seen.contains(path.parts)
            &&& source matches SourceView::Tour(preset, _) ==> candidate_model::is_named(path, preset)
            &&& forall|i: int|
                #![trigger self.candidates[i]]
                0 <= i < self.candidates.len() ==> self.candidates[i].path.parts != path.parts
        }
    }

    proof fn next_preset_is_sound(self)
        requires
            self.has_good_candidates(),
        ensures
            self.next_preset().is_sound(),
        decreases self.presets.len(),
    {
        if self.presets.len() > 0 {
            SearchView { presets: self.presets.drop_first(), ..self }.next_preset_is_sound();
            self.next_preset_starts_task();
        }
    }

    proof fn collecting_is_sound(self, list: Seq<PathView>)
        requires
            self.has_good_candidates(),
        ensures
            self.collecting(list).is_sound(),
        decreases list.len(),
    {
        if list.len() == 0 {
            self.next_preset_is_sound();
        } else if self.seen.contains(list[0].parts) {
            self.collecting_is_sound(list.drop_first());
        }
    }

    proof fn toured_is_sound(self, preset: CleanupPreset, tour: TourView)
        requires
            self.has_good_candidates(),
        ensures
            self.toured(preset, tour).is_sound(),
    {
        self.next_preset_is_sound();
    }

    proof fn touring_is_sound(self, preset: CleanupPreset, tour: TourView)
        requires
            self.has_good_candidates(),
        ensures
            self.touring(preset, tour).is_sound(),
    {
        self.toured_is_sound(preset, tour);
        self.toured_is_sound(preset, tour.on_decision(false));
        self.toured_is_sound(preset, tour.on_decision(true));
    }

    proof fn scanning_is_sound(self, walk: WalkView)
        requires
            self.has_good_candidates(),
        ensures
            self.scanning(walk).is_sound(),
    {
        self.collecting_is_sound(candidate_model::ignored_by_scan(walk));
    }

    proof fn measured_is_sound(self, source: SourceView, path: PathView, walk: MeasureView)
        requires
            self.is_sound(),
            self.task matches TaskView::Measure(at, now, _) && at == source && now == path,
        ensures
            self.measured(source, path, walk).is_sound(),
    {
        if walk.stage is Done {
            let found = SearchView {
                candidates: self.candidates.push(
                    candidate_model::candidate(source.preset(), path, walk.total),
                ),
                ..self
            };
            assert(found.has_good_candidates());
            match source {
                SourceView::Tour(preset, tour) => {
                    found.toured_is_sound(preset, tour);
                },
                SourceView::Ignored(list) => {
                    found.collecting_is_sound(list);
                },
            }
        }
    }

    /// Whatever a search is answered, no path becomes a candidate twice, and every candidate is
    /// justified.
    pub proof fn steps_are_sound(
        self,
        lookup: Lookup,
        listing: Option<Seq<ItemView>>,
        lines: Option<Seq<Seq<char>>>,
    )
        requires
            self.is_sound(),
        ensures
            self.on_lookup(lookup).is_sound(),
            self.on_listing(listing).is_sound(),
            self.on_ignore_file(lines).is_sound(),
            self.on_gate().is_sound(),
    {
        match self.task {
            TaskView::Tour(preset, tour) => {
                self.touring_is_sound(preset, tour.on_lookup(lookup));
                self.toured_is_sound(preset, tour.on_listing(listing));
            },
            TaskView::Scan(walk) => {
                self.scanning_is_sound(walk.on_lookup(lookup));
                self.scanning_is_sound(walk.on_listing(listing));
                self.scanning_is_sound(walk.on_ignore_file(lines));
                self.scanning_is_sound(walk.on_signal(false, 0));
            },
            TaskView::Measure(source, path, walk) => {
                self.measured_is_sound(source, path, walk.on_lookup(lookup));
                self.measured_is_sound(source, path, walk.on_listing(listing));
            },
            _ => {},
        }
    }

    /// A search begins without candidates.
    pub proof fn start_is_sound(
        roots: Seq<PathView>,
        presets: Seq<CleanupPreset>,
        ignore_hidden: bool,
        follow_symlinks: bool,
    )
        ensures
            SearchView::start(roots, presets, ignore_hidden, follow_symlinks).is_sound(),
    {
        SearchView {
            roots,
            ignore_hidden,
            follow_symlinks,
            presets,
            seen: Set::empty(),
            candidates: Seq::empty(),
            task: TaskView::Done,
        }.next_preset_is_sound();
    }
}

/// What has been found.
pub struct Haul {
    pub seen: Set<Seq<(u8, Seq<u8>)>>,
    pub candidates: Seq<CandidateView>,
}

/// A file system that holds still, and how it is searched.
///
/// The functions below say what a search of it comes to. They go down at most `fuel` levels and give
/// `None` where that is not enough or where a size does not fit a number.
pub struct SearchEnv {
    pub world: World,
    pub roots: Seq<PathView>,
    pub dir_flags: DirFlags,
    pub scan_flags: ScanFlags,
    pub follow_symlinks: bool,
}

impl SearchEnv {
    /// What has been found once a path has come up. It counts if it was not found before.
    pub open spec fn with_path(
        self,
        preset: CleanupPreset,
        path: PathView,
        from: Haul,
        fuel: nat,
    ) -> Option<Haul> {
        let env = MeasureEnv { world: self.world, follow_symlinks: self.follow_symlinks };
        if from.seen.contains(path.parts) {
            Some(from)
        } else {
            match env.size_of(path, fuel) {
                Some(size) if size <= u64::MAX => Some(
                    Haul {
                        seen: from.seen.insert(path.parts),
                        candidates: from.candidates.push(
                            candidate_model::candidate(preset, path, size as u64),
                        ),
                    },
                ),
                _ => None,
            }
        }
    }

    /// What has been found once a list of paths has been gone through. A preset that goes by name
    /// leaves out those with another name.
    pub open spec fn with_paths(
        self,
        preset: CleanupPreset,
        list: Seq<PathView>,
        from: Haul,
        fuel: nat,
    ) -> Option<Haul>
        decreases list.len(),
    {
        if list.len() == 0 {
            Some(from)
        } else if preset != CleanupPreset::Gitignored && !candidate_model::is_named(
            list[0],
            preset,
        ) {
            self.with_paths(preset, list.drop_first(), from, fuel)
        } else {
            match self.with_path(preset, list[0], from, fuel) {
                None => None,
                Some(after) => self.with_paths(preset, list.drop_first(), after, fuel),
            }
        }
    }

    /// How the directories are gone through for a preset that goes by name: those with the name are
    /// not gone into.
    pub open spec fn tour(self, preset: CleanupPreset) -> TourEnv {
        TourEnv {
            world: self.world,
            flags: self.dir_flags,
            enters: |path: PathView| !candidate_model::is_named(path, preset),
            cost: |path: PathView| 0nat,
        }
    }

    /// The paths that a preset comes to: the directories of a tour, or the ignored paths of a scan.
    pub open spec fn paths_for(self, preset: CleanupPreset, fuel: nat) -> Option<Seq<PathView>> {
        match preset {
            CleanupPreset::Gitignored => match scan_laws::whole_scan(
                self.world,
                self.scan_flags,
                self.roots,
                ScanControl::fresh(),
                fuel,
            ) {
                None => None,
                Some((nodes, _)) => Some(candidate_model::ignored_among(nodes)),
            },
            preset => match self.tour(preset).with_paths(
                self.roots,
                Toured { arrived: Seq::empty(), seen: Set::empty(), answers: 0 },
                fuel,
            ) {
                None => None,
                Some(end) => Some(end.arrived),
            },
        }
    }

    /// What has been found once a list of presets has been gone through.
    pub open spec fn with_presets(
        self,
        presets: Seq<CleanupPreset>,
        from: Haul,
        fuel: nat,
    ) -> Option<Haul>
        decreases presets.len(),
    {
        if presets.len() == 0 {
            Some(from)
        } else {
            match self.paths_for(presets[0], fuel) {
                None => None,
                Some(list) => match self.with_paths(presets[0], list, from, fuel) {
                    None => None,
                    Some(after) => self.with_presets(presets.drop_first(), after, fuel),
                },
            }
        }
    }
}

impl SearchEnv {
    /// A search for directories by name that follows links comes to an end even where the links lead
    /// in circles.
    pub proof fn tour_is_finite(self, preset: CleanupPreset, keys: Set<(u64, u64)>)
        requires
            preset != CleanupPreset::Gitignored,
            self.dir_flags.follow_symlinks,
            keys.finite(),
            self.tour(preset).has_keys(keys),
        ensures
            self.paths_for(preset, keys.len() + 1) is Some,
    {
        assert(keys.difference(Set::empty()) =~= keys);
        self.tour(preset).paths_are_finite(
            self.roots,
            Toured { arrived: Seq::empty(), seen: Set::empty(), answers: 0 },
            keys.len() + 1,
            keys,
        );
    }

    /// The directories that a search by name comes to are directories, are not hidden where hidden
    /// ones are left out, and none of them occurs twice where links are followed.
    pub proof fn tour_is_proper(self, preset: CleanupPreset, fuel: nat)
        requires
            preset != CleanupPreset::Gitignored,
        ensures
            self.tour(preset).with_paths(
                self.roots,
                Toured { arrived: Seq::empty(), seen: Set::empty(), answers: 0 },
                fuel,
            ) matches Some(end) ==> self.tour(preset).is_proper(self.roots, end),
    {
        self.tour(preset).paths_are_proper(
            self.roots,
            self.roots,
            Toured { arrived: Seq::empty(), seen: Set::empty(), answers: 0 },
            fuel,
        );
    }
}

impl SearchView {
    pub open spec fn env(self, world: World) -> SearchEnv {
        SearchEnv {
            world,
            roots: self.roots,
            dir_flags: self.dir_flags(),
            scan_flags: self.scan_flags(),
            follow_symlinks: self.follow_symlinks,
        }
    }

    pub open spec fn haul(self) -> Haul {
        Haul { seen: self.seen, candidates: self.candidates }
    }

    pub open spec fn with(self, haul: Haul) -> SearchView {
        SearchView { seen: haul.seen, candidates: haul.candidates, ..self }
    }

    /// Whether the search comes to another state in a file system that holds still.
    pub open spec fn reaches(self, world: World, other: SearchView) -> bool {
        exists|times: nat| #[trigger] self.run(world, times) == other
    }

    proof fn run_in_parts(self, world: World, first: nat, then: nat)
        ensures
            self.run(world, first + then) == self.run(world, first).run(world, then),
        decreases first,
    {
        if first > 0 {
            self.step(world).run_in_parts(world, (first - 1) as nat, then);
        }
    }

    proof fn reaches_itself(self, world: World)
        ensures
            self.reaches(world, self),
    {
        assert(self.run(world, 0) == self);
    }

    proof fn reaches_next(self, world: World, other: SearchView)
        requires
            self.step(world).reaches(world, other),
        ensures
            self.reaches(world, other),
    {
        let times = choose|times: nat| #[trigger] self.step(world).run(world, times) == other;
        assert(self.run(world, times + 1) == other);
    }

    proof fn reaches_through(self, world: World, middle: SearchView, other: SearchView)
        requires
            self.reaches(world, middle),
            middle.reaches(world, other),
        ensures
            self.reaches(world, other),
    {
        let first = choose|times: nat| #[trigger] self.run(world, times) == middle;
        let next = choose|times: nat| #[trigger] middle.run(world, times) == other;
        self.run_in_parts(world, first, next);
        assert(self.run(world, first + next) == other);
    }

    /// The measurement of a path comes to its end.
    proof fn measures(
        self,
        world: World,
        source: SourceView,
        path: PathView,
        walk: MeasureView,
        answers: nat,
        fuel: nat,
    )
        requires
            self.task == TaskView::Measure(source, path, walk),
            walk.stage is Lookup || walk.stage is Listing,
            walk.forecast(world, answers, fuel) matches Some(end) && end.total <= u64::MAX,
        ensures
            ({
                let end = walk.forecast(world, answers, fuel)->0;
                let done = MeasureView {
                    stage: MeasureStage::Done,
                    total: end.total as u64,
                    ..walk
                };
                self.reaches(world, self.measured(source, path, done))
            }),
        decreases (walk.forecast(world, answers, fuel)->0).answers - answers,
    {
        let end = walk.forecast(world, answers, fuel)->0;
        let done = MeasureView { stage: MeasureStage::Done, total: end.total as u64, ..walk };
        let next = walk.step(world);
        walk.step_keeps_forecast(world, answers, fuel);
        walk.forecast_is_ahead(world, answers, fuel);
        next.forecast_is_ahead(world, answers + 1, fuel);
        assert(self.step(world) == self.measured(source, path, next));
        if next.stage is Done {
            assert(next.total == end.total);
            assert(self.measured(source, path, next) == self.measured(source, path, done));
            self.step(world).reaches_itself(world);
        } else {
            let later = self.at(TaskView::Measure(source, path, next));
            assert(self.step(world) == later);
            later.measures(world, source, path, next, answers + 1, fuel);
            self.answers_ignore_task(later.task);
            let last = MeasureView { stage: MeasureStage::Done, total: end.total as u64, ..next };
            assert(later.measured(source, path, last) == self.measured(source, path, last));
            assert(self.measured(source, path, last) == self.measured(source, path, done));
        }
        self.reaches_next(world, self.measured(source, path, done));
    }

    /// A path that was not found before comes to be a candidate.
    proof fn takes_up(
        self,
        world: World,
        source: SourceView,
        path: PathView,
        fuel: nat,
    )
        requires
            !self.seen.contains(path.parts),
            self.env(world).with_path(source.preset(), path, self.haul(), fuel) is Some,
        ensures
            ({
                let haul = self.env(world).with_path(source.preset(), path, self.haul(), fuel)->0;
                let next = match source {
                    SourceView::Tour(preset, tour) => self.with(haul).toured(preset, tour),
                    SourceView::Ignored(list) => self.with(haul).collecting(list),
                };
                self.measuring(source, path).reaches(world, next)
            }),
    {
        let env = MeasureEnv { world, follow_symlinks: self.follow_symlinks };
        let haul = self.env(world).with_path(source.preset(), path, self.haul(), fuel)->0;
        let begun = self.measuring(source, path);
        let walk = MeasureView::start(path, self.follow_symlinks);
        let end = env.with_path(path, Measured::fresh(), fuel)->0;
        assert((seq![path] + walk.pending).drop_first() =~= Seq::<PathView>::empty());
        assert(env.with_paths(Seq::empty(), end, fuel) == Some(end));
        assert(walk.measured(0) == Measured::fresh());
        assert(walk.forecast(world, 0, fuel) == Some(end));
        begun.measures(world, source, path, walk, 0, fuel);
        let found = SearchView { candidates: haul.candidates, ..begun };
        assert(found.at(self.task) == self.with(haul));
        found.answers_ignore_task(self.task);
        if let SourceView::Ignored(list) = source {
            found.collecting_ignores_task(self.task, list);
        }
    }

    proof fn collects(self, world: World, list: Seq<PathView>, fuel: nat)
        requires
            self.env(world).with_paths(
                CleanupPreset::Gitignored,
                list,
                self.haul(),
                fuel,
            ) is Some,
        ensures
            ({
                let haul = self.env(world).with_paths(
                    CleanupPreset::Gitignored,
                    list,
                    self.haul(),
                    fuel,
                )->0;
                self.collecting(list).reaches(world, self.with(haul).next_preset())
            }),
        decreases list.len(),
    {
        let preset = CleanupPreset::Gitignored;
        let env = self.env(world);
        let haul = env.with_paths(preset, list, self.haul(), fuel)->0;
        let goal = self.with(haul).next_preset();
        if list.len() == 0 {
            assert(self.with(haul) == self);
            goal.reaches_itself(world);
        } else {
            let after = env.with_path(preset, list[0], self.haul(), fuel)->0;
            let rest = list.drop_first();
            let found = self.with(after);
            assert(found.env(world) == env);
            assert(found.haul() == after);
            assert(found.with(haul) == self.with(haul));
            found.collects(world, rest, fuel);
            if self.seen.contains(list[0].parts) {
                assert(found == self);
            } else {
                self.takes_up(world, SourceView::Ignored(rest), list[0], fuel);
                self.collecting(list).reaches_through(world, found.collecting(rest), goal);
            }
        }
    }

    proof fn tours(
        self,
        world: World,
        preset: CleanupPreset,
        tour: TourView,
        arrived: Seq<PathView>,
        answers: nat,
        fuel: nat,
    )
        requires
            preset != CleanupPreset::Gitignored,
            tour.wf(),
            tour.flags == self.dir_flags(),
            !(tour.stage is Arrived),
            tour.forecast(self.env(world).tour(preset), arrived, answers, fuel) matches Some(end)
                && self.env(world).with_paths(
                preset,
                end.arrived.skip(arrived.len() as int),
                self.haul(),
                fuel,
            ) is Some,
        ensures
            ({
                let end = tour.forecast(self.env(world).tour(preset), arrived, answers, fuel)->0;
                let haul = self.env(world).with_paths(
                    preset,
                    end.arrived.skip(arrived.len() as int),
                    self.haul(),
                    fuel,
                )->0;
                self.toured(preset, tour).reaches(world, self.with(haul).next_preset())
            }),
        decreases
                (tour.forecast(self.env(world).tour(preset), arrived, answers, fuel)->0).answers
                    - answers,
                0nat,
    {
        let env = self.env(world);
        let tours = env.tour(preset);
        let end = tour.forecast(tours, arrived, answers, fuel)->0;
        let rest = end.arrived.skip(arrived.len() as int);
        let haul = env.with_paths(preset, rest, self.haul(), fuel)->0;
        let goal = self.with(haul).next_preset();
        let now = self.at(TaskView::Tour(preset, tour));
        tour.forecast_is_ahead(tours, arrived, answers, fuel);
        match tour.stage {
            TourStage::Done => {
                assert(rest =~= Seq::<PathView>::empty());
                assert(self.with(haul) == self);
                goal.reaches_itself(world);
            },
            TourStage::Listing(path) => {
                let next = tour.on_listing((world.listing)(path));
                TourView {
                    pending: tours.inside(path) + tour.pending,
                    ..tour
                }.next_is_wf();
                tour.listing_keeps_forecast(tours, arrived, answers, fuel);
                self.tours(world, preset, next, arrived, answers + 1, fuel);
                self.answers_ignore_task(now.task);
                assert(now.step(world) == self.toured(preset, next));
                now.reaches_next(world, goal);
            },
            TourStage::Lookup(path) => {
                let next = tour.on_lookup((world.lookup)(path));
                tour.next_is_wf();
                next.next_is_wf();
                tour.lookup_keeps_forecast(tours, arrived, answers, fuel);
                self.answers_ignore_task(now.task);
                assert(now.step(world) == self.touring(preset, next));
                if next.stage is Arrived {
                    self.arrives(world, preset, next, arrived, answers + 1, fuel);
                } else {
                    self.tours(world, preset, next, arrived, answers + 1, fuel);
                }
                now.reaches_next(world, goal);
            },
            _ => {},
        }
    }

    proof fn arrives(
        self,
        world: World,
        preset: CleanupPreset,
        tour: TourView,
        arrived: Seq<PathView>,
        answers: nat,
        fuel: nat,
    )
        requires
            preset != CleanupPreset::Gitignored,
            tour.flags == self.dir_flags(),
            tour.stage is Arrived,
            tour.forecast(self.env(world).tour(preset), arrived, answers, fuel) matches Some(end)
                && self.env(world).with_paths(
                preset,
                end.arrived.skip(arrived.len() as int),
                self.haul(),
                fuel,
            ) is Some,
        ensures
            ({
                let end = tour.forecast(self.env(world).tour(preset), arrived, answers, fuel)->0;
                let haul = self.env(world).with_paths(
                    preset,
                    end.arrived.skip(arrived.len() as int),
                    self.haul(),
                    fuel,
                )->0;
                self.touring(preset, tour).reaches(world, self.with(haul).next_preset())
            }),
        decreases
                (tour.forecast(self.env(world).tour(preset), arrived, answers, fuel)->0).answers
                    - answers,
                1nat,
    {
        let env = self.env(world);
        let tours = env.tour(preset);
        let end = tour.forecast(tours, arrived, answers, fuel)->0;
        let rest = end.arrived.skip(arrived.len() as int);
        let haul = env.with_paths(preset, rest, self.haul(), fuel)->0;
        let goal = self.with(haul).next_preset();
        let path = tour.stage->Arrived_0;
        let named = candidate_model::is_named(path, preset);
        let past = tour.on_decision(!named);
        tour.next_is_wf();
        tour.decision_keeps_forecast(tours, arrived, answers, fuel);
        past.forecast_is_ahead(tours, arrived.push(path), answers, fuel);
        assert(end.arrived[arrived.len() as int] == arrived.push(path)[arrived.len() as int]);
        assert(rest[0] == path);
        assert(rest.drop_first() =~= end.arrived.skip(arrived.push(path).len() as int));
        if !named {
            self.tours(world, preset, past, arrived.push(path), answers, fuel);
        } else {
            let after = env.with_path(preset, path, self.haul(), fuel)->0;
            let found = self.with(after);
            assert(found.env(world) == env);
            assert(found.haul() == after);
            assert(found.with(haul) == self.with(haul));
            found.tours(world, preset, past, arrived.push(path), answers, fuel);
            if self.seen.contains(path.parts) {
                assert(found == self);
            } else {
                self.takes_up(world, SourceView::Tour(preset, past), path, fuel);
                self.touring(preset, tour).reaches_through(
                    world,
                    found.toured(preset, past),
                    goal,
                );
            }
        }
    }

    proof fn scans(self, world: World, walk: WalkView, answers: nat, fuel: nat)
        requires
            walk.wf(),
            walk.is_calm(),
            walk.forecast(world, answers, fuel) is Some,
        ensures
            ({
                let (nodes, _) = walk.forecast(world, answers, fuel)->0;
                self.scanning(walk).reaches(
                    world,
                    self.collecting(candidate_model::ignored_among(nodes)),
                )
            }),
        decreases (walk.forecast(world, answers, fuel)->0).1.answers - answers,
    {
        let (nodes, tally) = walk.forecast(world, answers, fuel)->0;
        let goal = self.collecting(candidate_model::ignored_among(nodes));
        if walk.stage is Done {
            goal.reaches_itself(world);
        } else {
            let now = self.at(TaskView::Scan(walk));
            let next = walk.step(world);
            walk.step_keeps_forecast(world, answers, fuel);
            walk.step_keeps_wf(world);
            walk.step_keeps_calm(world);
            walk.forecast_is_ahead(world, answers, fuel);
            next.forecast_is_ahead(world, answers + 1, fuel);
            self.scans(world, next, answers + 1, fuel);
            self.answers_ignore_task(now.task);
            assert(now.step(world) == self.scanning(next));
            now.reaches_next(world, goal);
        }
    }

    /// A search that goes from preset to preset comes to what the file system holds.
    proof fn searches(self, world: World, fuel: nat)
        requires
            self.env(world).with_presets(self.presets, self.haul(), fuel) is Some,
        ensures
            ({
                let haul = self.env(world).with_presets(self.presets, self.haul(), fuel)->0;
                let end = SearchView { presets: Seq::empty(), ..self.with(haul) }.at(TaskView::Done);
                self.next_preset().reaches(world, end)
            }),
        decreases self.presets.len(),
    {
        let env = self.env(world);
        let haul = env.with_presets(self.presets, self.haul(), fuel)->0;
        let end = SearchView { presets: Seq::empty(), ..self.with(haul) }.at(TaskView::Done);
        if self.presets.len() == 0 {
            assert(self.presets =~= Seq::<CleanupPreset>::empty());
            assert(self.next_preset() == end);
            end.reaches_itself(world);
        } else {
            let preset = self.presets[0];
            let rest = SearchView { presets: self.presets.drop_first(), ..self };
            let list = env.paths_for(preset, fuel)->0;
            let after = env.with_paths(preset, list, self.haul(), fuel)->0;
            let found = rest.with(after);
            assert(rest.env(world) == env);
            assert(found.env(world) == env);
            assert(found.haul() == after);
            found.searches(world, fuel);
            assert(SearchView { presets: Seq::empty(), ..found.with(haul) }.at(TaskView::Done) == end);
            assert(rest.haul() == self.haul());
            match preset {
                CleanupPreset::Gitignored => {
                    let walk = WalkView::start(
                        self.scan_flags(),
                        self.roots,
                        ScanControl::fresh(),
                        None,
                    );
                    rest.scans(world, walk, 0, fuel);
                    rest.collects(world, list, fuel);
                    rest.scanning(walk).reaches_through(
                        world,
                        rest.collecting(list),
                        found.next_preset(),
                    );
                    rest.scanning(walk).reaches_through(world, found.next_preset(), end);
                },
                _ => {
                    let before = TourView {
                        flags: self.dir_flags(),
                        pending: self.roots,
                        seen: Set::empty(),
                        stage: TourStage::Done,
                    };
                    let tour = TourView::start(self.dir_flags(), self.roots);
                    before.next_is_wf();
                    before.next_keeps_forecast(env.tour(preset), Seq::empty(), 0, fuel);
                    assert(list.skip(0) =~= list);
                    rest.tours(world, preset, tour, Seq::empty(), 0, fuel);
                    rest.toured(preset, tour).reaches_through(world, found.next_preset(), end);
                },
            }
        }
    }

    /// A search of a file system that holds still comes to its end, and has then found what the file
    /// system holds: for each preset the paths that it comes to, each once and with its size.
    pub proof fn search_completes(
        world: World,
        roots: Seq<PathView>,
        presets: Seq<CleanupPreset>,
        ignore_hidden: bool,
        follow_symlinks: bool,
        fuel: nat,
    )
        requires
            SearchView::begun(roots, presets, ignore_hidden, follow_symlinks).env(world).with_presets(
                presets,
                Haul::nothing(),
                fuel,
            ) is Some,
        ensures
            ({
                let begun = SearchView::begun(roots, presets, ignore_hidden, follow_symlinks);
                let haul = begun.env(world).with_presets(
                    presets,
                    Haul::nothing(),
                    fuel,
                )->0;
                exists|times: nat|
                    {
                        let end = #[trigger] SearchView::start(
                            roots,
                            presets,
                            ignore_hidden,
                            follow_symlinks,
                        ).run(world, times);
                        end.task is Done && end.candidates == haul.candidates
                    }
            }),
    {
        let begun = SearchView::begun(roots, presets, ignore_hidden, follow_symlinks);
        begun.searches(world, fuel);
        let haul = begun.env(world).with_presets(presets, begun.haul(), fuel)->0;
        let end = SearchView { presets: Seq::empty(), ..begun.with(haul) }.at(TaskView::Done);
        let start = SearchView::start(roots, presets, ignore_hidden, follow_symlinks);
        let times = choose|times: nat| #[trigger] start.run(world, times) == end;
        assert(start.run(world, times).task is Done);
    }
}

/// Whether one of the candidates has the path with these components.
pub open spec fn lists(candidates: Seq<CandidateView>, parts: Seq<(u8, Seq<u8>)>) -> bool {
    exists|i: int| 0 <= i < candidates.len() && (#[trigger] candidates[i]).path.parts == parts
}

/// Those of the candidates in `more` whose path is not among those in `known`.
pub open spec fn lacking(known: Seq<CandidateView>, more: Seq<CandidateView>) -> Seq<CandidateView>
    decreases more.len(),
{
    if more.len() == 0 {
        Seq::empty()
    } else if lists(known, more.last().path.parts) {
        lacking(known, more.drop_last())
    } else {
        lacking(known, more.drop_last()).push(more.last())
    }
}

impl Haul {
    pub open spec fn nothing() -> Haul {
        Haul { seen: Set::empty(), candidates: Seq::empty() }
    }

    /// Whether the paths that were found are those of the candidates.
    pub open spec fn is_tight(self) -> bool {
        forall|parts: Seq<(u8, Seq<u8>)>| #[trigger]
            self.seen.contains(parts) <==> lists(self.candidates, parts)
    }

    /// What has been found where `more` would have been found if this had not been before.
    pub open spec fn with(self, more: Haul) -> Haul {
        Haul {
            seen: self.seen.union(more.seen),
            candidates: self.candidates + lacking(self.candidates, more.candidates),
        }
    }
}

proof fn lists_one_more(candidates: Seq<CandidateView>, candidate: CandidateView)
    ensures
        forall|parts: Seq<(u8, Seq<u8>)>| #[trigger]
            lists(candidates.push(candidate), parts) <==> lists(candidates, parts)
                || candidate.path.parts == parts,
{
    let longer = candidates.push(candidate);
    assert forall|parts: Seq<(u8, Seq<u8>)>| #[trigger]
        lists(longer, parts) <==> lists(candidates, parts) || candidate.path.parts == parts by {
        if lists(candidates, parts) {
            let i = choose|i: int|
                0 <= i < candidates.len() && (#[trigger] candidates[i]).path.parts == parts;
            assert(longer[i].path.parts == parts);
        }
        assert(longer[candidates.len() as int] == candidate);
        if lists(longer, parts) {
            let i = choose|i: int| 0 <= i < longer.len() && (#[trigger] longer[i]).path.parts == parts;
            if i < candidates.len() {
                assert(candidates[i].path.parts == parts);
            }
        }
    }
}

impl SearchEnv {
    pub proof fn path_after(
        self,
        preset: CleanupPreset,
        path: PathView,
        first: Haul,
        from: Haul,
        fuel: nat,
    )
        requires
            first.is_tight(),
            from.is_tight(),
        ensures
            self.with_path(preset, path, from, fuel) matches Some(to) ==> {
                &&& to.is_tight()
                &&& self.with_path(preset, path, first.with(from), fuel) == Some(first.with(to))
            },
    {
        if let Some(to) = self.with_path(preset, path, from, fuel) {
            if !from.seen.contains(path.parts) {
                let candidate = to.candidates.last();
                assert(to.candidates.drop_last() =~= from.candidates);
                lists_one_more(from.candidates, candidate);
                let whole = first.with(from);
                assert(first.with(to).seen =~= whole.seen.insert(path.parts));
                if first.seen.contains(path.parts) {
                    assert(whole.seen.insert(path.parts) =~= whole.seen);
                } else {
                    assert(first.with(to).candidates =~= whole.candidates.push(candidate));
                }
            }
        }
    }

    proof fn paths_after(
        self,
        preset: CleanupPreset,
        list: Seq<PathView>,
        first: Haul,
        from: Haul,
        fuel: nat,
    )
        requires
            first.is_tight(),
            from.is_tight(),
        ensures
            self.with_paths(preset, list, from, fuel) matches Some(to) ==> {
                &&& to.is_tight()
                &&& self.with_paths(preset, list, first.with(from), fuel) == Some(first.with(to))
            },
        decreases list.len(),
    {
        if list.len() > 0 {
            let rest = list.drop_first();
            if preset != CleanupPreset::Gitignored && !candidate_model::is_named(list[0], preset) {
                self.paths_after(preset, rest, first, from, fuel);
            } else {
                self.path_after(preset, list[0], first, from, fuel);
                if let Some(after) = self.with_path(preset, list[0], from, fuel) {
                    self.paths_after(preset, rest, first, after, fuel);
                }
            }
        }
    }

    proof fn presets_after(
        self,
        presets: Seq<CleanupPreset>,
        first: Haul,
        from: Haul,
        fuel: nat,
    )
        requires
            first.is_tight(),
            from.is_tight(),
        ensures
            self.with_presets(presets, from, fuel) matches Some(to) ==> {
                &&& to.is_tight()
                &&& self.with_presets(presets, first.with(from), fuel) == Some(first.with(to))
            },
        decreases presets.len(),
    {
        if presets.len() > 0 {
            if let Some(list) = self.paths_for(presets[0], fuel) {
                self.paths_after(presets[0], list, first, from, fuel);
                if let Some(after) = self.with_paths(presets[0], list, from, fuel) {
                    self.presets_after(presets.drop_first(), first, after, fuel);
                }
            }
        }
    }

    /// A list of presets can be gone through in two parts.
    proof fn presets_in_parts(
        self,
        front: Seq<CleanupPreset>,
        back: Seq<CleanupPreset>,
        from: Haul,
        fuel: nat,
    )
        ensures
            self.with_presets(front + back, from, fuel) == match self.with_presets(
                front,
                from,
                fuel,
            ) {
                None => None,
                Some(after) => self.with_presets(back, after, fuel),
            },
        decreases front.len(),
    {
        if front.len() == 0 {
            assert(front + back =~= back);
        } else {
            assert((front + back).drop_first() =~= front.drop_first() + back);
            if let Some(list) = self.paths_for(front[0], fuel) {
                if let Some(after) = self.with_paths(front[0], list, from, fuel) {
                    self.presets_in_parts(front.drop_first(), back, after, fuel);
                }
            }
        }
    }

    /// What two lists of presets find one after the other is what the first finds, and of what the
    /// second finds by itself that whose path the first has not found. So a path that several presets
    /// come to is listed for the one that stands first.
    pub proof fn presets_combine(
        self,
        first: Seq<CleanupPreset>,
        then: Seq<CleanupPreset>,
        fuel: nat,
    )
        requires
            self.with_presets(first, Haul::nothing(), fuel) is Some,
            self.with_presets(then, Haul::nothing(), fuel) is Some,
        ensures
            ({
                let a = (self.with_presets(first, Haul::nothing(), fuel)->0).candidates;
                let b = (self.with_presets(then, Haul::nothing(), fuel)->0).candidates;
                &&& self.with_presets(first + then, Haul::nothing(), fuel) matches Some(both)
                &&& both.candidates == a + lacking(a, b)
                &&& forall|candidate: CandidateView| #[trigger]
                    both.candidates.contains(candidate) <==> a.contains(candidate) || (b.contains(
                        candidate,
                    ) && !lists(a, candidate.path.parts))
            }),
    {
        let nothing = Haul::nothing();
        let one = self.with_presets(first, nothing, fuel)->0;
        let other = self.with_presets(then, nothing, fuel)->0;
        assert(nothing.is_tight());
        self.presets_after(first, nothing, nothing, fuel);
        self.presets_after(then, one, nothing, fuel);
        self.presets_in_parts(first, then, nothing, fuel);
        assert(one.with(nothing).seen =~= one.seen);
        assert(one.with(nothing).candidates =~= one.candidates);
        let a = one.candidates;
        let b = other.candidates;
        let more = lacking(a, b);
        lacking_holds(a, b);
        assert forall|candidate: CandidateView| #[trigger]
            (a + more).contains(candidate) <==> a.contains(candidate) || more.contains(candidate) by {
            if a.contains(candidate) {
                let i = choose|i: int| 0 <= i < a.len() && a[i] == candidate;
                assert((a + more)[i] == candidate);
            }
            if more.contains(candidate) {
                let i = choose|i: int| 0 <= i < more.len() && more[i] == candidate;
                assert((a + more)[a.len() + i] == candidate);
            }
        }
    }
}

proof fn lacking_holds(known: Seq<CandidateView>, more: Seq<CandidateView>)
    ensures
        forall|candidate: CandidateView| #[trigger]
            lacking(known, more).contains(candidate) <==> more.contains(candidate) && !lists(
                known,
                candidate.path.parts,
            ),
    decreases more.len(),
{
    if more.len() > 0 {
        let shorter = more.drop_last();
        let before = lacking(known, shorter);
        let after = lacking(known, more);
        lacking_holds(known, shorter);
        assert forall|candidate: CandidateView| #[trigger]
            after.contains(candidate) <==> more.contains(candidate) && !lists(
                known,
                candidate.path.parts,
            ) by {
            assert(more =~= shorter.push(more.last()));
            if shorter.contains(candidate) {
                let i = choose|i: int| 0 <= i < shorter.len() && shorter[i] == candidate;
                assert(more[i] == candidate);
            }
            assert(more[more.len() - 1] == more.last());
            if before.contains(candidate) {
                let i = choose|i: int| 0 <= i < before.len() && before[i] == candidate;
                assert(after[i] == candidate);
            }
            if !lists(known, more.last().path.parts) {
                assert(after[after.len() - 1] == more.last());
            }
        }
    }
}

} // verus!
