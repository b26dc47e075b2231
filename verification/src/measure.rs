//! Measuring the space that a path and everything below it takes on disk.

use crate::metadata;
use crate::metadata::{FileKind, Lookup, Metadata, SeenInodes};
use crate::paths;
use crate::paths::PathView;
use crate::world;
use crate::world::{DirItem, ItemView, World};
use std::path::PathBuf;
use vstd::prelude::*;

verus! {

/// What a measurement has come to.
pub struct Measured {
    /// The bytes found.
    pub total: nat,
    /// The files that have been counted.
    pub seen: Set<(u64, u64)>,
    /// The number of answers that it took.
    pub answers: nat,
}

impl Measured {
    pub open spec fn fresh() -> Measured {
        Measured { total: 0, seen: Set::empty(), answers: 0 }
    }

    pub open spec fn answered(self) -> Measured {
        Measured { answers: self.answers + 1, ..self }
    }

    pub open spec fn counted(self, meta: Metadata) -> Measured {
        Measured {
            total: self.total + meta.size() as nat,
            seen: metadata::counted(self.seen, meta),
            ..self
        }
    }
}

/// A file system that holds still, and whether symbolic links are followed.
///
/// The functions below say what a measurement in it comes to. They go down at most `fuel` levels and
/// give `None` where that is not enough.
pub struct MeasureEnv {
    pub world: World,
    pub follow_symlinks: bool,
}

impl MeasureEnv {
    /// The measurement after a path and everything below it. A file that has been counted already
    /// does not count again, and nothing below it is looked at.
    pub open spec fn with_path(self, path: PathView, from: Measured, fuel: nat) -> Option<Measured>
        decreases fuel, 0nat, 0nat,
    {
        if fuel == 0 {
            None
        } else {
            match (self.world.lookup)(path).effective(self.follow_symlinks) {
                None => Some(from.answered()),
                Some(meta) => {
                    if metadata::is_counted(from.seen, meta) {
                        Some(from.answered())
                    } else if !meta.is_dir() {
                        Some(from.answered().counted(meta))
                    } else {
                        self.with_paths(
                            world::listed_paths((self.world.listing)(path)),
                            from.answered().counted(meta).answered(),
                            (fuel - 1) as nat,
                        )
                    }
                },
            }
        }
    }

    /// The measurement after a list of paths and everything below them.
    pub open spec fn with_paths(
        self,
        list: Seq<PathView>,
        from: Measured,
        fuel: nat,
    ) -> Option<Measured>
        decreases fuel, 1nat, list.len(),
    {
        if list.len() == 0 {
            Some(from)
        } else {
            match self.with_path(list[0], from, fuel) {
                None => None,
                Some(after) => self.with_paths(list.drop_first(), after, fuel),
            }
        }
    }

    /// The size of a path and everything below it.
    pub open spec fn size_of(self, path: PathView, fuel: nat) -> Option<nat> {
        match self.with_path(path, Measured::fresh(), fuel) {
            None => None,
            Some(end) => Some(end.total),
        }
    }

    proof fn path_fuel(self, path: PathView, from: Measured, fuel: nat)
        ensures
            self.with_path(path, from, fuel) is Some ==> self.with_path(path, from, fuel + 1)
                == self.with_path(path, from, fuel),
        decreases fuel, 0nat, 0nat,
    {
        if fuel > 0 {
            if let Some(meta) = (self.world.lookup)(path).effective(self.follow_symlinks) {
                self.paths_fuel(
                    world::listed_paths((self.world.listing)(path)),
                    from.answered().counted(meta).answered(),
                    (fuel - 1) as nat,
                );
            }
        }
    }

    /// More levels to go down change nothing where fewer were enough.
    proof fn paths_fuel(self, list: Seq<PathView>, from: Measured, fuel: nat)
        ensures
            self.with_paths(list, from, fuel) is Some ==> self.with_paths(list, from, fuel + 1)
                == self.with_paths(list, from, fuel),
        decreases fuel, 1nat, list.len(),
    {
        if list.len() > 0 {
            self.path_fuel(list[0], from, fuel);
            if let Some(after) = self.with_path(list[0], from, fuel) {
                self.paths_fuel(list.drop_first(), after, fuel);
            }
        }
    }

    /// A list can be measured in two parts.
    proof fn paths_in_parts(
        self,
        front: Seq<PathView>,
        back: Seq<PathView>,
        from: Measured,
        fuel: nat,
    )
        ensures
            self.with_paths(front + back, from, fuel) == match self.with_paths(front, from, fuel) {
                None => None,
                Some(after) => self.with_paths(back, after, fuel),
            },
        decreases front.len(),
    {
        if front.len() == 0 {
            assert(front + back =~= back);
        } else {
            assert((front + back).drop_first() =~= front.drop_first() + back);
            if let Some(after) = self.with_path(front[0], from, fuel) {
                self.paths_in_parts(front.drop_first(), back, after, fuel);
            }
        }
    }

    proof fn path_grows(self, path: PathView, from: Measured, fuel: nat)
        ensures
            self.with_path(path, from, fuel) matches Some(to) ==> {
                &&& from.total <= to.total
                &&& from.answers <= to.answers
                &&& from.seen.subset_of(to.seen)
            },
        decreases fuel, 0nat, 0nat,
    {
        if fuel > 0 {
            if let Some(meta) = (self.world.lookup)(path).effective(self.follow_symlinks) {
                self.paths_grow(
                    world::listed_paths((self.world.listing)(path)),
                    from.answered().counted(meta).answered(),
                    (fuel - 1) as nat,
                );
            }
        }
    }

    /// A measurement never takes anything back.
    pub proof fn paths_grow(self, list: Seq<PathView>, from: Measured, fuel: nat)
        ensures
            self.with_paths(list, from, fuel) matches Some(to) ==> {
                &&& from.total <= to.total
                &&& from.answers <= to.answers
                &&& from.seen.subset_of(to.seen)
            },
        decreases fuel, 1nat, list.len(),
    {
        if list.len() > 0 {
            self.path_grows(list[0], from, fuel);
            if let Some(after) = self.with_path(list[0], from, fuel) {
                self.paths_grow(list.drop_first(), after, fuel);
            }
        }
    }

    /// Whether every directory that can be reached is told apart from all others by a key in `keys`.
    pub open spec fn has_keys(self, keys: Set<(u64, u64)>) -> bool {
        forall|path: PathView|
            (#[trigger] (self.world.lookup)(path)).effective(self.follow_symlinks) matches Some(meta)
                ==> (meta.is_dir() ==> meta.key() is Some && keys.contains(meta.key()->0))
    }

    /// The measurement of a path comes to an end even where symbolic links that are followed lead in
    /// circles: as many levels as there are directories are enough.
    pub proof fn path_is_finite(self, path: PathView, from: Measured, fuel: nat, keys: Set<(u64, u64)>)
        requires
            keys.finite(),
            self.has_keys(keys),
            keys.difference(from.seen).len() < fuel,
        ensures
            self.with_path(path, from, fuel) is Some,
        decreases fuel, 0nat, 0nat,
    {
        if let Some(meta) = (self.world.lookup)(path).effective(self.follow_symlinks) {
            if !metadata::is_counted(from.seen, meta) && meta.is_dir() {
                let opened = from.answered().counted(meta).answered();
                let key = meta.key()->0;
                assert(keys.contains(key) && !from.seen.contains(key));
                assert(keys.difference(opened.seen) =~= keys.difference(from.seen).remove(key));
                self.paths_are_finite(
                    world::listed_paths((self.world.listing)(path)),
                    opened,
                    (fuel - 1) as nat,
                    keys,
                );
            }
        }
    }

    proof fn paths_are_finite(
        self,
        list: Seq<PathView>,
        from: Measured,
        fuel: nat,
        keys: Set<(u64, u64)>,
    )
        requires
            keys.finite(),
            self.has_keys(keys),
            keys.difference(from.seen).len() < fuel,
        ensures
            self.with_paths(list, from, fuel) is Some,
        decreases fuel, 1nat, list.len(),
    {
        if list.len() > 0 {
            self.path_is_finite(list[0], from, fuel, keys);
            self.path_grows(list[0], from, fuel);
            let after = self.with_path(list[0], from, fuel)->0;
            assert(keys.difference(after.seen).subset_of(keys.difference(from.seen)));
            vstd::set_lib::lemma_len_subset(
                keys.difference(after.seen),
                keys.difference(from.seen),
            );
            self.paths_are_finite(list.drop_first(), after, fuel, keys);
        }
    }
}

/// Where a measurement stands.
pub enum MeasureStage {
    /// Waits for what is found under a path.
    Lookup(PathView),
    /// Waits for the entries of a directory.
    Listing(PathView),
    Done,
    /// Cannot go on: the sum does not fit a number.
    Overflow,
}

/// The state of a measurement.
pub struct MeasureView {
    pub follow_symlinks: bool,
    /// The paths that are still to be measured.
    pub pending: Seq<PathView>,
    pub seen: Set<(u64, u64)>,
    pub total: u64,
    pub stage: MeasureStage,
}

impl MeasureView {
    /// A measurement that is about to begin.
    pub open spec fn start(path: PathView, follow_symlinks: bool) -> MeasureView {
        MeasureView {
            follow_symlinks,
            pending: Seq::empty(),
            seen: Set::empty(),
            total: 0,
            stage: MeasureStage::Lookup(path),
        }
    }

    /// On to the next path, or to the end.
    pub open spec fn next(self) -> MeasureView {
        if self.pending.len() == 0 {
            MeasureView { stage: MeasureStage::Done, ..self }
        } else {
            MeasureView {
                pending: self.pending.drop_first(),
                stage: MeasureStage::Lookup(self.pending[0]),
                ..self
            }
        }
    }

    /// The measurement has learned what is found under the path that it asked about.
    pub open spec fn on_lookup(self, lookup: Lookup) -> MeasureView {
        let path = self.stage->Lookup_0;
        match lookup.effective(self.follow_symlinks) {
            None => self.next(),
            Some(meta) => {
                if metadata::is_counted(self.seen, meta) {
                    self.next()
                } else if self.total + meta.size() > u64::MAX {
                    MeasureView {
                        seen: metadata::counted(self.seen, meta),
                        stage: MeasureStage::Overflow,
                        ..self
                    }
                } else {
                    let counted = MeasureView {
                        seen: metadata::counted(self.seen, meta),
                        total: (self.total + meta.size()) as u64,
                        ..self
                    };
                    if meta.is_dir() {
                        MeasureView { stage: MeasureStage::Listing(path), ..counted }
                    } else {
                        counted.next()
                    }
                }
            },
        }
    }

    /// The measurement has learned the entries of the directory that it asked about.
    pub open spec fn on_listing(self, listing: Option<Seq<ItemView>>) -> MeasureView {
        MeasureView { pending: world::listed_paths(listing) + self.pending, ..self }.next()
    }

    pub open spec fn measured(self, answers: nat) -> Measured {
        Measured { total: self.total as nat, seen: self.seen, answers }
    }

    /// What a measurement that has had `answers` answers comes to in a file system that holds still.
    pub open spec fn forecast(self, world: World, answers: nat, fuel: nat) -> Option<Measured> {
        let env = MeasureEnv { world, follow_symlinks: self.follow_symlinks };
        match self.stage {
            MeasureStage::Lookup(path) => env.with_paths(
                seq![path] + self.pending,
                self.measured(answers),
                fuel,
            ),
            MeasureStage::Listing(path) => env.with_paths(
                world::listed_paths((world.listing)(path)) + self.pending,
                self.measured(answers + 1),
                fuel,
            ),
            MeasureStage::Done => Some(self.measured(answers)),
            MeasureStage::Overflow => None,
        }
    }

    /// The measurement after one more answer in a file system that holds still.
    pub open spec fn step(self, world: World) -> MeasureView {
        match self.stage {
            MeasureStage::Lookup(path) => self.on_lookup((world.lookup)(path)),
            MeasureStage::Listing(path) => self.on_listing((world.listing)(path)),
            _ => self,
        }
    }

    pub open spec fn run(self, world: World, times: nat) -> MeasureView
        decreases times,
    {
        if times == 0 {
            self
        } else {
            self.step(world).run(world, (times - 1) as nat)
        }
    }

    proof fn next_keeps_forecast(self, world: World, answers: nat, fuel: nat)
        ensures
            ({
                let env = MeasureEnv { world, follow_symlinks: self.follow_symlinks };
                self.next().forecast(world, answers, fuel) == env.with_paths(
                    self.pending,
                    self.measured(answers),
                    fuel,
                )
            }),
    {
        if self.pending.len() > 0 {
            assert(seq![self.pending[0]] + self.pending.drop_first() =~= self.pending);
        }
    }

    /// No answer changes what a measurement comes to whose size fits a number.
    pub proof fn step_keeps_forecast(self, world: World, answers: nat, fuel: nat)
        requires
            !(self.stage is Done),
            self.forecast(world, answers, fuel) matches Some(end) && end.total <= u64::MAX,
        ensures
            self.step(world).forecast(world, answers + 1, fuel) == self.forecast(
                world,
                answers,
                fuel,
            ),
    {
        let env = MeasureEnv { world, follow_symlinks: self.follow_symlinks };
        match self.stage {
            MeasureStage::Lookup(path) => {
                let list = seq![path] + self.pending;
                assert(list.drop_first() =~= self.pending);
                let from = self.measured(answers);
                self.next_keeps_forecast(world, answers + 1, fuel);
                if let Some(meta) = (world.lookup)(path).effective(self.follow_symlinks) {
                    let inside = world::listed_paths((world.listing)(path));
                    let opened = from.answered().counted(meta).answered();
                    if !metadata::is_counted(self.seen, meta) {
                        let after = env.with_path(path, from, fuel)->0;
                        env.paths_grow(self.pending, after, fuel);
                        if meta.is_dir() {
                            env.paths_grow(inside, opened, (fuel - 1) as nat);
                            env.paths_fuel(inside, opened, (fuel - 1) as nat);
                            env.paths_in_parts(inside, self.pending, opened, fuel);
                        } else {
                            MeasureView {
                                seen: metadata::counted(self.seen, meta),
                                total: (self.total + meta.size()) as u64,
                                ..self
                            }.next_keeps_forecast(world, answers + 1, fuel);
                        }
                    }
                }
            },
            MeasureStage::Listing(path) => {
                MeasureView {
                    pending: world::listed_paths((world.listing)(path)) + self.pending,
                    ..self
                }.next_keeps_forecast(world, answers + 1, fuel);
            },
            _ => {},
        }
    }

    /// A measurement has never had more answers than it will have had in the end.
    pub proof fn forecast_is_ahead(self, world: World, answers: nat, fuel: nat)
        ensures
            self.forecast(world, answers, fuel) matches Some(end) ==> answers <= end.answers,
    {
        let env = MeasureEnv { world, follow_symlinks: self.follow_symlinks };
        match self.stage {
            MeasureStage::Lookup(path) => {
                env.paths_grow(seq![path] + self.pending, self.measured(answers), fuel);
            },
            MeasureStage::Listing(path) => {
                env.paths_grow(
                    world::listed_paths((world.listing)(path)) + self.pending,
                    self.measured(answers + 1),
                    fuel,
                );
            },
            _ => {},
        }
    }

    /// A measurement in a file system that holds still ends after as many answers as the forecast
    /// says, with the size that the forecast says, if that fits a number.
    pub proof fn run_meets_forecast(self, world: World, answers: nat, fuel: nat)
        requires
            self.forecast(world, answers, fuel) matches Some(end) && end.total <= u64::MAX,
        ensures
            ({
                let end = self.forecast(world, answers, fuel)->0;
                let last = self.run(world, (end.answers - answers) as nat);
                &&& answers <= end.answers
                &&& last.stage is Done
                &&& last.total == end.total
            }),
        decreases (self.forecast(world, answers, fuel)->0).answers - answers,
    {
        self.forecast_is_ahead(world, answers, fuel);
        if !(self.stage is Done) {
            let next = self.step(world);
            self.step_keeps_forecast(world, answers, fuel);
            next.forecast_is_ahead(world, answers + 1, fuel);
            next.run_meets_forecast(world, answers + 1, fuel);
        }
    }
}

/// Measuring a path in a file system that holds still gives its size.
pub proof fn measurement_completes(world: World, path: PathView, follow_symlinks: bool, fuel: nat)
    requires
        (MeasureEnv { world, follow_symlinks }).size_of(path, fuel) matches Some(size) && size
            <= u64::MAX,
    ensures
        ({
            let env = MeasureEnv { world, follow_symlinks };
            let end = env.with_path(path, Measured::fresh(), fuel)->0;
            let last = MeasureView::start(path, follow_symlinks).run(world, end.answers);
            &&& last.stage is Done
            &&& Some(last.total as nat) == env.size_of(path, fuel)
        }),
{
    let env = MeasureEnv { world, follow_symlinks };
    let start = MeasureView::start(path, follow_symlinks);
    let end = env.with_path(path, Measured::fresh(), fuel)->0;
    assert((seq![path] + start.pending).drop_first() =~= Seq::<PathView>::empty());
    assert(env.with_paths(Seq::empty(), end, fuel) == Some(end));
    assert(start.measured(0) == Measured::fresh());
    start.run_meets_forecast(world, 0, fuel);
}

enum Stage {
    Lookup(PathBuf),
    Listing(PathBuf),
    Done,
    Overflow,
}

impl Stage {
    spec fn deep(self) -> MeasureStage {
        match self {
            Stage::Lookup(path) => MeasureStage::Lookup(paths::path_view(path)),
            Stage::Listing(path) => MeasureStage::Listing(paths::path_view(path)),
            Stage::Done => MeasureStage::Done,
            Stage::Overflow => MeasureStage::Overflow,
        }
    }
}

/// A measurement under way. It waits for one answer at a time.
pub struct MeasureWalk {
    follow_symlinks: bool,
    /// The paths that are still to be measured, the next one at the back.
    pending: Vec<PathBuf>,
    seen: SeenInodes,
    total: u64,
    stage: Stage,
}

impl View for MeasureWalk {
    type V = MeasureView;

    closed spec fn view(&self) -> MeasureView {
        MeasureView {
            follow_symlinks: self.follow_symlinks,
            pending: world::stacked(self.pending@),
            seen: self.seen@,
            total: self.total,
            stage: self.stage.deep(),
        }
    }
}

/// What a measurement waits for.
pub enum MeasureRequest<'a> {
    /// What is found under the path, with what a symbolic link leads to where links are followed;
    /// answered by `looked_up`.
    Lookup { path: &'a PathBuf, follow_symlinks: bool },
    /// The entries of the directory; answered by `listed`.
    Listing(&'a PathBuf),
    /// Nothing: this is the size.
    Done(u64),
    /// Nothing: the size does not fit a number.
    Overflow,
}

impl<'a> MeasureRequest<'a> {
    /// Whether this is what a measurement in the given state waits for.
    pub open spec fn is_for(self, walk: MeasureView) -> bool {
        match self {
            MeasureRequest::Lookup { path, follow_symlinks } => {
                &&& walk.stage == MeasureStage::Lookup(paths::path_view(*path))
                &&& follow_symlinks == walk.follow_symlinks
            },
            MeasureRequest::Listing(path) => walk.stage == MeasureStage::Listing(
                paths::path_view(*path),
            ),
            MeasureRequest::Done(size) => walk.stage is Done && size == walk.total,
            MeasureRequest::Overflow => walk.stage is Overflow,
        }
    }
}

impl MeasureWalk {
    /// What the measurement waits for.
    pub fn request(&self) -> (request: MeasureRequest<'_>)
        ensures
            request.is_for(self@),
    {
        match &self.stage {
            Stage::Lookup(path) => MeasureRequest::Lookup {
                path,
                follow_symlinks: self.follow_symlinks,
            },
            Stage::Listing(path) => MeasureRequest::Listing(path),
            Stage::Done => MeasureRequest::Done(self.total),
            Stage::Overflow => MeasureRequest::Overflow,
        }
    }

    fn next(self) -> (walk: MeasureWalk)
        ensures
            walk@ == self@.next(),
    {
        let mut walk = self;
        let ghost before = walk.pending@;
        walk.stage = match walk.pending.pop() {
            None => {
                assert(walk.pending@ =~= before);
                Stage::Done
            },
            Some(path) => {
                assert(world::stacked(walk.pending@) =~= world::stacked(before).drop_first());
                Stage::Lookup(path)
            },
        };
        walk
    }

    /// Goes on after the path that was asked about has been looked up.
    pub fn looked_up(self, lookup: Lookup) -> (walk: MeasureWalk)
        requires
            self@.stage is Lookup,
        ensures
            walk@ == self@.on_lookup(lookup),
    {
        let mut walk = self;
        let meta = match metadata::effective_metadata(lookup, walk.follow_symlinks) {
            None => {
                return walk.next();
            },
            Some(meta) => meta,
        };
        let own: u64 = match metadata::unique_allocated_size(&meta, &mut walk.seen) {
            None => {
                assert(walk@.seen =~= self@.seen);
                return walk.next();
            },
            Some(own) => own,
        };
        match walk.total.checked_add(own) {
            None => {
                walk.stage = Stage::Overflow;
                walk
            },
            Some(total) => {
                walk.total = total;
                if meta.kind != FileKind::Directory {
                    return walk.next();
                }
                let mut stage = Stage::Done;
                std::mem::swap(&mut stage, &mut walk.stage);
                if let Stage::Lookup(path) = stage {
                    walk.stage = Stage::Listing(path);
                }
                walk
            },
        }
    }

    /// Goes on after the entries of the directory that was asked about have been read.
    pub fn listed(self, listing: Option<Vec<DirItem>>) -> (walk: MeasureWalk)
        requires
            self@.stage is Listing,
        ensures
            walk@ == self@.on_listing(world::listing_view(listing)),
    {
        let mut walk = self;
        world::push_entries(listing, &mut walk.pending);
        walk.next()
    }
}

/// Begins to measure a path, treating a symbolic link as what it leads to when asked to.
pub fn measure_path_inner(path: PathBuf, follow_symlinks: bool) -> (walk: MeasureWalk)
    ensures
        walk@ == MeasureView::start(paths::path_view(path), follow_symlinks),
{
    let walk = MeasureWalk {
        follow_symlinks,
        pending: Vec::new(),
        seen: SeenInodes::new(),
        total: 0,
        stage: Stage::Lookup(path),
    };
    assert(walk@.pending =~= Seq::<PathView>::empty());
    walk
}

/// Begins to measure a path. Symbolic links are not followed.
pub fn measure_path(path: PathBuf) -> (walk: MeasureWalk)
    ensures
        walk@ == MeasureView::start(paths::path_view(path), false),
{
    measure_path_inner(path, false)
}

} // verus!
