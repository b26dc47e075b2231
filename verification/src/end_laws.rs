//! Walks come to their ends: nothing but a tree without a bottom, or numbers that do not fit, keeps a
//! walk through a file system that holds still from its result.

use crate::candidate_laws::{Haul, SearchEnv};
use crate::clean::CleanupPreset;
use crate::control::ScanControl;
use crate::dir_walk;
use crate::dir_walk::{DirFlags, TourEnv, Toured};
use crate::git;
use crate::measure::{MeasureEnv, Measured};
use crate::measure_laws;
use crate::metadata;
use crate::paths::PathView;
use crate::rules;
use crate::rules::RuleView;
use crate::scan_laws;
use crate::scan_model;
use crate::scan_model::{
    EntryPlan, Finding, FrameView, JobView, NodeView, ScanEnv, ScanFlags, Tally,
};
use crate::tour_laws;
use crate::world::{ItemView, World};
use vstd::prelude::*;

verus! {

/// Whether every path lies on a level below `height`, and what lies in a directory on a lower level
/// than the directory.
pub open spec fn is_layered(world: World, level: spec_fn(PathView) -> nat, height: nat) -> bool {
    &&& forall|path: PathView| #[trigger] level(path) < height
    &&& forall|path: PathView|
        (#[trigger] (world.listing)(path)) matches Some(items) ==> forall|k: int|
            0 <= k < items.len() && (#[trigger] items[k]) is Entry ==> level(items[k]->Entry_path)
                < level(path)
}

impl TourEnv {
    proof fn path_comes_to_an_end(
        self,
        path: PathView,
        from: Toured,
        fuel: nat,
        level: spec_fn(PathView) -> nat,
        height: nat,
    )
        requires
            is_layered(self.world, level, height),
            level(path) < fuel,
        ensures
            self.with_path(path, from, fuel) is Some,
        decreases fuel, 0nat, 0nat,
    {
        let lookup = (self.world.lookup)(path);
        if !(self.flags.ignore_hidden && path.is_hidden()) && dir_walk::is_stop(
            self.flags,
            from.seen,
            lookup,
        ) {
            let meta = lookup.effective(self.flags.follow_symlinks)->0;
            let there = Toured {
                seen: dir_walk::marked(self.flags, from.seen, meta),
                ..from.answered(1 + (self.cost)(path)).at(path)
            };
            if (self.enters)(path) {
                let list = self.inside(path);
                self.inside_is_onward(path);
                assert forall|i: int| 0 <= i < list.len() implies level(#[trigger] list[i]) < (fuel
                    - 1) by {
                    assert(list.contains(list[i]));
                    let items = (self.world.listing)(path)->0;
                    let k = choose|k: int|
                        0 <= k < items.len() && tour_laws::onward(self.flags, #[trigger] items[k])
                            == Some(list[i]);
                    assert(items[k] is Entry);
                    assert(level(items[k]->Entry_path) < level(path));
                }
                self.paths_come_to_an_end(
                    list,
                    there.answered(1),
                    (fuel - 1) as nat,
                    level,
                    height,
                );
            }
        }
    }

    /// A tour of directories that lie on so many levels comes to an end.
    pub proof fn paths_come_to_an_end(
        self,
        list: Seq<PathView>,
        from: Toured,
        fuel: nat,
        level: spec_fn(PathView) -> nat,
        height: nat,
    )
        requires
            is_layered(self.world, level, height),
            forall|i: int| 0 <= i < list.len() ==> level(#[trigger] list[i]) < fuel,
        ensures
            self.with_paths(list, from, fuel) is Some,
        decreases fuel, 1nat, list.len(),
    {
        if list.len() > 0 {
            let later = list.drop_first();
            self.path_comes_to_an_end(list[0], from, fuel, level, height);
            if let Some(after) = self.with_path(list[0], from, fuel) {
                assert forall|i: int| 0 <= i < later.len() implies level(#[trigger] later[i])
                    < fuel by {
                    assert(later[i] == list[i + 1]);
                }
                self.paths_come_to_an_end(later, after, fuel, level, height);
            }
        }
    }
}

/// A search for repositories comes to an end where directories lie on so many levels.
pub proof fn repo_search_comes_to_an_end(
    world: World,
    flags: DirFlags,
    roots: Seq<PathView>,
    level: spec_fn(PathView) -> nat,
    height: nat,
)
    requires
        is_layered(world, level, height),
    ensures
        git::searched(world, flags, roots, height) is Some,
{
    git::repo_tour(world, flags).paths_come_to_an_end(
        roots,
        Toured { arrived: Seq::empty(), seen: Set::empty(), answers: 0 },
        height,
        level,
        height,
    );
}

impl MeasureEnv {
    proof fn path_comes_to_an_end(
        self,
        path: PathView,
        from: Measured,
        fuel: nat,
        level: spec_fn(PathView) -> nat,
        height: nat,
    )
        requires
            is_layered(self.world, level, height),
            level(path) < fuel,
        ensures
            self.with_path(path, from, fuel) is Some,
        decreases fuel, 0nat, 0nat,
    {
        self.contents_are_entries(path);
        if let Some(meta) = self.found(path) {
            if !metadata::is_counted(from.seen, meta) && meta.is_dir() {
                let list = self.contents(path);
                assert forall|i: int| 0 <= i < list.len() implies level(#[trigger] list[i]) < (fuel
                    - 1) by {
                    let items = (self.world.listing)(path)->0;
                    let kept = |item: ItemView| measure_laws::readable(item);
                    assert(list == items.filter_map(kept));
                    assert(list.contains(list[i]));
                    items.lemma_filter_map_contains(kept, list[i]);
                    let item = choose|item: ItemView| #[trigger] items.contains(item) && kept(item)
                        == Some(list[i]);
                    let k = choose|k: int| 0 <= k < items.len() && items[k] == item;
                    assert(items[k] is Entry);
                    assert(level(items[k]->Entry_path) < level(path));
                }
                self.paths_come_to_an_end(
                    list,
                    from.answered().counted(meta).answered(),
                    (fuel - 1) as nat,
                    level,
                    height,
                );
            }
        }
    }

    proof fn paths_come_to_an_end(
        self,
        list: Seq<PathView>,
        from: Measured,
        fuel: nat,
        level: spec_fn(PathView) -> nat,
        height: nat,
    )
        requires
            is_layered(self.world, level, height),
            forall|i: int| 0 <= i < list.len() ==> level(#[trigger] list[i]) < fuel,
        ensures
            self.with_paths(list, from, fuel) is Some,
        decreases fuel, 1nat, list.len(),
    {
        if list.len() > 0 {
            let later = list.drop_first();
            self.path_comes_to_an_end(list[0], from, fuel, level, height);
            if let Some(after) = self.with_path(list[0], from, fuel) {
                assert forall|i: int| 0 <= i < later.len() implies level(#[trigger] later[i])
                    < fuel by {
                    assert(later[i] == list[i + 1]);
                }
                self.paths_come_to_an_end(later, after, fuel, level, height);
            }
        }
    }

    /// A measurement comes to an end where directories lie on so many levels.
    pub proof fn measurement_comes_to_an_end(
        self,
        path: PathView,
        level: spec_fn(PathView) -> nat,
        height: nat,
    )
        requires
            is_layered(self.world, level, height),
        ensures
            self.size_of(path, height) is Some,
    {
        self.path_comes_to_an_end(path, Measured::fresh(), height, level, height);
    }

    /// Whether the sizes of things that are counted, none twice that can be told apart, always stay
    /// below the largest number.
    pub open spec fn is_light(self) -> bool {
        forall|counted: Seq<PathView>, seen: Set<(u64, u64)>| #[trigger]
            self.is_record(counted, seen) ==> self.weight(counted) < u64::MAX
    }

    /// The size of a path stays below the largest number where the sizes of all things do.
    pub proof fn size_is_light(self, path: PathView, fuel: nat)
        requires
            self.is_light(),
        ensures
            self.size_of(path, fuel) matches Some(size) ==> size < u64::MAX,
    {
        if self.size_of(path, fuel) is Some {
            let counted = self.measurement_counts_everything_once(path, fuel);
            let seen = Set::new(
                |key: (u64, u64)|
                    exists|j: int|
                        0 <= j < counted.len() && self.mark(#[trigger] counted[j]) == Some(key),
            );
            assert(self.is_record(counted, seen));
        }
    }
}

impl ScanEnv {
    proof fn job_comes_to_an_end(
        self,
        job: JobView,
        rules: Seq<RuleView>,
        tally: Tally,
        counted: Seq<PathView>,
        fuel: nat,
        level: spec_fn(PathView) -> nat,
        height: nat,
    )
        requires
            is_layered(self.world, level, height),
            self.eye().is_light(),
            self.eye().is_record(counted, tally.seen),
            level(job.path) < fuel,
            job.depth + level(job.path) <= u32::MAX,
        ensures
            self.scan_job(job, rules, tally, fuel) is Some,
        decreases fuel, 1nat, 0nat,
    {
        let eye = self.eye();
        let path = job.path;
        eye.contents_are_entries(path);
        if let Some(meta) = eye.found(path) {
            let t = tally.answered(2).visited().answered(1);
            if !metadata::is_counted(t.seen, meta) && meta.is_dir() {
                let first = counted.push(path);
                eye.record_grows(counted, tally.seen, path);
                let inside = if job.reads_rules(self.flags) {
                    rules::rules_inside(rules, path.bytes, (self.world.ignore_file)(path))
                } else {
                    rules
                };
                let extra: nat = if job.reads_rules(self.flags) || job.summed() {
                    1
                } else {
                    0
                };
                let last: nat = if (self.world.listing)(path) is Some {
                    2
                } else {
                    1
                };
                let frame = FrameView {
                    job,
                    own: meta.size(),
                    items: self.items(path),
                    children: Seq::empty(),
                    total: 0,
                    failed: false,
                    outer: rules.len(),
                };
                let begun = t.counted(meta).answered(extra).answered(last);
                self.frame_begins(frame, inside, counted);
                self.filled_comes_to_an_end(
                    frame,
                    inside,
                    rules,
                    self.items(path),
                    Seq::empty(),
                    seq![counted.len() as int + 1],
                    begun,
                    first,
                    counted.len() as int,
                    fuel,
                    level,
                    height,
                );
            }
        }
    }

    proof fn filled_comes_to_an_end(
        self,
        frame: FrameView,
        inside: Seq<RuleView>,
        outer: Seq<RuleView>,
        whole: Seq<ItemView>,
        places: Seq<int>,
        times: Seq<int>,
        tally: Tally,
        counted: Seq<PathView>,
        at: int,
        fuel: nat,
        level: spec_fn(PathView) -> nat,
        height: nat,
    )
        requires
            is_layered(self.world, level, height),
            self.eye().is_light(),
            self.eye().is_record(counted, tally.seen),
            self.is_kept(frame, inside, whole, places, times, counted, at),
            !frame.job.summed() ==> inside == self.rules_in(outer, frame.job.path),
            !frame.failed,
            level(frame.job.path) < fuel,
            frame.job.depth + level(frame.job.path) <= u32::MAX,
        ensures
            self.filled(frame, inside, tally, fuel) is Some,
        decreases fuel, 0nat, frame.items.len(),
    {
        if frame.items.len() == 0 {
            self.kept_is_light(frame, inside, whole, places, times, counted, tally.seen, at);
        } else {
            self.kept_items_are_listed(frame, inside, whole, places, times, counted, at);
            let k = whole.len() - frame.items.len();
            assert((self.world.listing)(frame.job.path) matches Some(items) && items == whole);
            assert(whole[k] is Entry ==> level(whole[k]->Entry_path) < level(frame.job.path));
            match frame.job.plan(self.flags, frame.items[0], inside) {
                EntryPlan::Skip => {
                    self.skipping_keeps(frame, inside, whole, places, times, counted, at);
                    self.filled_comes_to_an_end(
                        frame.rest(),
                        inside,
                        outer,
                        whole,
                        places,
                        times.push(counted.len() as int),
                        tally.answered(1),
                        counted,
                        at,
                        fuel,
                        level,
                        height,
                    );
                },
                EntryPlan::TooDeep => {},
                EntryPlan::Visit(job) => {
                    let lower = (fuel - 1) as nat;
                    let t = tally.answered(2).admitted();
                    self.job_comes_to_an_end(job, inside, t, counted, lower, level, height);
                    let front = self.job_is_told(job, inside, t, counted, lower);
                    if let Some((finding, after)) = self.scan_job(job, inside, t, lower) {
                        let next = frame.rest().absorb(finding);
                        let now = self.absorbing_keeps(
                            frame,
                            inside,
                            whole,
                            places,
                            times,
                            counted,
                            at,
                            job,
                            finding,
                            front,
                        );
                        self.filled_comes_to_an_end(
                            next,
                            inside,
                            outer,
                            whole,
                            now,
                            times.push((counted + front).len() as int),
                            after,
                            counted + front,
                            at,
                            fuel,
                            level,
                            height,
                        );
                    }
                },
            }
        }
    }

    proof fn roots_come_to_an_end(
        self,
        directories: Seq<PathView>,
        roots: Seq<NodeView>,
        tally: Tally,
        counted: Seq<PathView>,
        level: spec_fn(PathView) -> nat,
        height: nat,
    )
        requires
            is_layered(self.world, level, height),
            height <= u32::MAX,
            self.eye().is_light(),
            self.eye().is_record(counted, tally.seen),
        ensures
            self.scan_roots(directories, roots, tally, height) is Some,
        decreases directories.len(),
    {
        if directories.len() > 0 {
            let job = JobView::root(directories[0]);
            let t = tally.answered(1).admitted();
            let none = Seq::<RuleView>::empty();
            self.job_comes_to_an_end(job, none, t, counted, height, level, height);
            let more = self.job_is_told(job, none, t, counted, height);
            if let Some((finding, after)) = self.scan_job(job, none, t, height) {
                self.roots_come_to_an_end(
                    directories.drop_first(),
                    scan_model::with_node(roots, finding),
                    after,
                    counted + more,
                    level,
                    height,
                );
            }
        }
    }
}

/// A scan of a file system that holds still completes where directories lie on so many levels, no
/// more than depths can count, and the sizes of everything in it stay below the largest number.
pub proof fn scan_comes_to_an_end(
    world: World,
    flags: ScanFlags,
    directories: Seq<PathView>,
    control: ScanControl,
    level: spec_fn(PathView) -> nat,
    height: nat,
)
    requires
        is_layered(world, level, height),
        height <= u32::MAX,
        (ScanEnv { world, flags }).eye().is_light(),
    ensures
        scan_laws::whole_scan(world, flags, directories, control, height) is Some,
{
    let env = ScanEnv { world, flags };
    let from = Tally { seen: Set::empty(), control, answers: 0 };
    assert(env.eye().is_record(Seq::empty(), from.seen));
    env.roots_come_to_an_end(directories, Seq::empty(), from, Seq::empty(), level, height);
}

impl SearchEnv {
    proof fn found_paths_come_to_an_end(
        self,
        preset: CleanupPreset,
        list: Seq<PathView>,
        from: Haul,
        level: spec_fn(PathView) -> nat,
        height: nat,
    )
        requires
            is_layered(self.world, level, height),
            (MeasureEnv {
                world: self.world,
                follow_symlinks: self.follow_symlinks,
            }).is_light(),
        ensures
            self.with_paths(preset, list, from, height) is Some,
        decreases list.len(),
    {
        if list.len() > 0 {
            let env = MeasureEnv { world: self.world, follow_symlinks: self.follow_symlinks };
            env.measurement_comes_to_an_end(list[0], level, height);
            env.size_is_light(list[0], height);
            self.found_paths_come_to_an_end(preset, list.drop_first(), from, level, height);
            if let Some(after) = self.with_path(preset, list[0], from, height) {
                self.found_paths_come_to_an_end(preset, list.drop_first(), after, level, height);
            }
        }
    }

    /// A search for candidates in a file system that holds still comes to an end where directories
    /// lie on so many levels, no more than depths can count, and the sizes of everything in it stay
    /// below the largest number.
    pub proof fn search_comes_to_an_end(
        self,
        presets: Seq<CleanupPreset>,
        from: Haul,
        level: spec_fn(PathView) -> nat,
        height: nat,
    )
        requires
            is_layered(self.world, level, height),
            height <= u32::MAX,
            self.scan_flags.follow_symlinks == self.follow_symlinks,
            (MeasureEnv {
                world: self.world,
                follow_symlinks: self.follow_symlinks,
            }).is_light(),
        ensures
            self.with_presets(presets, from, height) is Some,
        decreases presets.len(),
    {
        if presets.len() > 0 {
            let preset = presets[0];
            if preset == CleanupPreset::Gitignored {
                let env = ScanEnv { world: self.world, flags: self.scan_flags };
                assert(env.eye() == MeasureEnv {
                    world: self.world,
                    follow_symlinks: self.follow_symlinks,
                });
                scan_comes_to_an_end(
                    self.world,
                    self.scan_flags,
                    self.roots,
                    ScanControl::fresh(),
                    level,
                    height,
                );
            } else {
                self.tour(preset).paths_come_to_an_end(
                    self.roots,
                    Toured { arrived: Seq::empty(), seen: Set::empty(), answers: 0 },
                    height,
                    level,
                    height,
                );
            }
            if let Some(list) = self.paths_for(preset, height) {
                self.found_paths_come_to_an_end(preset, list, from, level, height);
                if let Some(after) = self.with_paths(preset, list, from, height) {
                    self.search_comes_to_an_end(presets.drop_first(), after, level, height);
                }
            }
        }
    }
}

} // verus!
