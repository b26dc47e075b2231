//! Going through the directories below a list of roots, and deciding at each whether to go in.

use crate::metadata;
use crate::metadata::{FileKind, Lookup, Metadata, SeenInodes};
use crate::paths;
use crate::paths::PathView;
use crate::world;
use crate::world::{DirItem, ItemView, World};
use std::path::PathBuf;
use vstd::prelude::*;

verus! {

/// How directories are gone through.
#[derive(Clone, Copy, Debug, PartialEq, Eq, Structural)]
pub struct DirFlags {
    /// Leave out what is hidden, also among the roots.
    pub ignore_hidden: bool,
    /// Treat a symbolic link as what it leads to, and visit no directory twice.
    pub follow_symlinks: bool,
    /// Leave out entries that are named `.git`.
    pub skip_git: bool,
}

/// Whether a path ends in the name `.git`.
pub open spec fn is_git_name(path: PathView) -> bool {
    path.file_name() == Some(seq![0x2eu8, 0x67u8, 0x69u8, 0x74u8])
}

/// The paths below a directory that are to be gone through.
pub open spec fn kept_paths(flags: DirFlags, list: Seq<PathView>) -> Seq<PathView>
    decreases list.len(),
{
    if list.len() == 0 {
        Seq::empty()
    } else if flags.skip_git && is_git_name(list.last()) {
        kept_paths(flags, list.drop_last())
    } else {
        kept_paths(flags, list.drop_last()).push(list.last())
    }
}

/// What a tour has come to.
pub struct Toured {
    /// The directories that it came to, in order.
    pub arrived: Seq<PathView>,
    /// The directories that will not be visited again.
    pub seen: Set<(u64, u64)>,
    /// The number of answers that it took.
    pub answers: nat,
}

impl Toured {
    pub open spec fn answered(self, times: nat) -> Toured {
        Toured { answers: self.answers + times, ..self }
    }

    pub open spec fn at(self, path: PathView) -> Toured {
        Toured { arrived: self.arrived.push(path), ..self }
    }
}

/// The directories that will not be visited again once one with this metadata was visited.
pub open spec fn marked(flags: DirFlags, seen: Set<(u64, u64)>, meta: Metadata) -> Set<(u64, u64)> {
    if flags.follow_symlinks {
        metadata::counted(seen, meta)
    } else {
        seen
    }
}

/// Whether what was found under a path is a directory to come to.
pub open spec fn is_stop(flags: DirFlags, seen: Set<(u64, u64)>, lookup: Lookup) -> bool {
    match lookup.effective(flags.follow_symlinks) {
        Some(meta) => meta.is_dir() && !(flags.follow_symlinks && metadata::is_counted(seen, meta)),
        None => false,
    }
}

/// A file system that holds still, and how its directories are gone through: `enters` says which of
/// those that a tour comes to it goes into, `cost` how many answers it takes to tell.
///
/// The functions below say what a tour comes to. They go down at most `fuel` levels and give `None`
/// where that is not enough.
pub struct TourEnv {
    pub world: World,
    pub flags: DirFlags,
    pub enters: spec_fn(PathView) -> bool,
    pub cost: spec_fn(PathView) -> nat,
}

impl TourEnv {
    pub open spec fn inside(self, path: PathView) -> Seq<PathView> {
        kept_paths(self.flags, world::listed_paths((self.world.listing)(path)))
    }

    /// The tour after a path and everything below it that is gone through.
    pub open spec fn with_path(self, path: PathView, from: Toured, fuel: nat) -> Option<Toured>
        decreases fuel, 0nat, 0nat,
    {
        let lookup = (self.world.lookup)(path);
        if fuel == 0 {
            None
        } else if self.flags.ignore_hidden && path.is_hidden() {
            Some(from)
        } else if !is_stop(self.flags, from.seen, lookup) {
            Some(from.answered(1))
        } else {
            let meta = lookup.effective(self.flags.follow_symlinks)->0;
            let there = Toured {
                seen: marked(self.flags, from.seen, meta),
                ..from.answered(1 + (self.cost)(path)).at(path)
            };
            if (self.enters)(path) {
                self.with_paths(self.inside(path), there.answered(1), (fuel - 1) as nat)
            } else {
                Some(there)
            }
        }
    }

    /// The tour after a list of paths and everything below them that is gone through.
    pub open spec fn with_paths(self, list: Seq<PathView>, from: Toured, fuel: nat) -> Option<Toured>
        decreases fuel, 1nat, list.len(),
    {
        if list.len() == 0 {
            Some(from)
        } else {
            match self.with_path(list[0], from, fuel) {
                None => None,
                Some(after) => self.with_paths(list.drop_first(), after, fuel),
            }
        }
    }

    proof fn path_fuel(self, path: PathView, from: Toured, fuel: nat)
        ensures
            self.with_path(path, from, fuel) is Some ==> self.with_path(path, from, fuel + 1)
                == self.with_path(path, from, fuel),
        decreases fuel, 0nat, 0nat,
    {
        if fuel > 0 && is_stop(self.flags, from.seen, (self.world.lookup)(path)) {
            let meta = (self.world.lookup)(path).effective(self.flags.follow_symlinks)->0;
            let there = Toured {
                seen: marked(self.flags, from.seen, meta),
                ..from.answered(1 + (self.cost)(path)).at(path)
            };
            self.paths_fuel(self.inside(path), there.answered(1), (fuel - 1) as nat);
        }
    }

    /// More levels to go down change nothing where fewer were enough.
    pub proof fn paths_fuel(self, list: Seq<PathView>, from: Toured, fuel: nat)
        ensures
            self.with_paths(list, from, fuel) is Some ==> self.with_paths(list, from, fuel + 1)
                == self.with_paths(list, from, fuel),
        decreases fuel, 1nat, list.len(),
    {
        if list.len() > 0 {
            self.path_fuel(list[0], from, fuel);
            if let Some(after) = self.with_path(list[0], from, fuel) {
                self.paths_fuel(list.drop_first(), after, fuel);
            }
        }
    }

    /// A list can be gone through in two parts.
    pub proof fn paths_in_parts(
        self,
        front: Seq<PathView>,
        back: Seq<PathView>,
        from: Toured,
        fuel: nat,
    )
        ensures
            self.with_paths(front + back, from, fuel) == match self.with_paths(front, from, fuel) {
                None => None,
                Some(after) => self.with_paths(back, after, fuel),
            },
        decreases front.len(),
    {
        if front.len() == 0 {
            assert(front + back =~= back);
        } else {
            assert((front + back).drop_first() =~= front.drop_first() + back);
            if let Some(after) = self.with_path(front[0], from, fuel) {
                self.paths_in_parts(front.drop_first(), back, after, fuel);
            }
        }
    }

    proof fn path_grows(self, path: PathView, from: Toured, fuel: nat)
        ensures
            self.with_path(path, from, fuel) matches Some(to) ==> {
                &&& from.arrived.is_prefix_of(to.arrived)
                &&& from.answers <= to.answers
                &&& from.seen.subset_of(to.seen)
            },
        decreases fuel, 0nat, 0nat,
    {
        if fuel > 0 && is_stop(self.flags, from.seen, (self.world.lookup)(path)) {
            let meta = (self.world.lookup)(path).effective(self.flags.follow_symlinks)->0;
            let there = Toured {
                seen: marked(self.flags, from.seen, meta),
                ..from.answered(1 + (self.cost)(path)).at(path)
            };
            assert(from.arrived.is_prefix_of(there.arrived));
            self.paths_grow(self.inside(path), there.answered(1), (fuel - 1) as nat);
            if let Some(to) = self.with_paths(
                self.inside(path),
                there.answered(1),
                (fuel - 1) as nat,
            ) {
                assert(from.arrived.is_prefix_of(to.arrived));
            }
        }
    }

    /// A tour never takes anything back.
    pub proof fn paths_grow(self, list: Seq<PathView>, from: Toured, fuel: nat)
        ensures
            self.with_paths(list, from, fuel) matches Some(to) ==> {
                &&& from.arrived.is_prefix_of(to.arrived)
                &&& from.answers <= to.answers
                &&& from.seen.subset_of(to.seen)
            },
        decreases fuel, 1nat, list.len(),
    {
        if list.len() > 0 {
            self.path_grows(list[0], from, fuel);
            if let Some(after) = self.with_path(list[0], from, fuel) {
                self.paths_grow(list.drop_first(), after, fuel);
                if let Some(to) = self.with_paths(list, from, fuel) {
                    assert(from.arrived.is_prefix_of(to.arrived));
                }
            }
        }
    }

    /// Whether every directory that can be reached is told apart from all others by a key in `keys`.
    pub open spec fn has_keys(self, keys: Set<(u64, u64)>) -> bool {
        forall|path: PathView|
            (#[trigger] (self.world.lookup)(path)).effective(self.flags.follow_symlinks) matches Some(meta)
                ==> (meta.is_dir() ==> meta.key() is Some && keys.contains(meta.key()->0))
    }

    proof fn path_is_finite(self, path: PathView, from: Toured, fuel: nat, keys: Set<(u64, u64)>)
        requires
            self.flags.follow_symlinks,
            keys.finite(),
            self.has_keys(keys),
            keys.difference(from.seen).len() < fuel,
        ensures
            self.with_path(path, from, fuel) is Some,
        decreases fuel, 0nat, 0nat,
    {
        let lookup = (self.world.lookup)(path);
        if is_stop(self.flags, from.seen, lookup) {
            let meta = lookup.effective(self.flags.follow_symlinks)->0;
            let there = Toured {
                seen: marked(self.flags, from.seen, meta),
                ..from.answered(1 + (self.cost)(path)).at(path)
            };
            let key = meta.key()->0;
            assert(keys.contains(key) && !from.seen.contains(key));
            assert(keys.difference(there.seen) =~= keys.difference(from.seen).remove(key));
            self.paths_are_finite(self.inside(path), there.answered(1), (fuel - 1) as nat, keys);
        }
    }

    /// A tour that follows symbolic links comes to an end even where they lead in circles: as many
    /// levels as there are directories are enough.
    pub proof fn paths_are_finite(
        self,
        list: Seq<PathView>,
        from: Toured,
        fuel: nat,
        keys: Set<(u64, u64)>,
    )
        requires
            self.flags.follow_symlinks,
            keys.finite(),
            self.has_keys(keys),
            keys.difference(from.seen).len() < fuel,
        ensures
            self.with_paths(list, from, fuel) is Some,
        decreases fuel, 1nat, list.len(),
    {
        if list.len() > 0 {
            self.path_is_finite(list[0], from, fuel, keys);
            self.path_grows(list[0], from, fuel);
            let after = self.with_path(list[0], from, fuel)->0;
            assert(keys.difference(after.seen).subset_of(keys.difference(from.seen)));
            vstd::set_lib::lemma_len_subset(
                keys.difference(after.seen),
                keys.difference(from.seen),
            );
            self.paths_are_finite(list.drop_first(), after, fuel, keys);
        }
    }

    /// What the directory under a path is told apart by, if it can be.
    pub open spec fn key_of(self, path: PathView) -> Option<(u64, u64)> {
        match (self.world.lookup)(path).effective(self.flags.follow_symlinks) {
            Some(meta) => meta.key(),
            None => None,
        }
    }

    /// Whether a tour may come to a path: it is a directory, it is not hidden where hidden paths are
    /// left out, and it is not a `.git` entry where those are, unless it is a root.
    pub open spec fn may_arrive(self, roots: Seq<PathView>, path: PathView) -> bool {
        &&& (self.world.lookup)(path).effective(self.flags.follow_symlinks) matches Some(meta)
            && meta.is_dir()
        &&& !(self.flags.ignore_hidden && path.is_hidden())
        &&& roots.contains(path) || !(self.flags.skip_git && is_git_name(path))
    }

    /// Whether a tour has come only where it may, and, where links are followed, to no directory
    /// twice that can be told apart from others.
    pub open spec fn is_proper(self, roots: Seq<PathView>, toured: Toured) -> bool {
        &&& forall|i: int|
            0 <= i < toured.arrived.len() ==> self.may_arrive(roots, #[trigger] toured.arrived[i])
        &&& self.flags.follow_symlinks ==> forall|i: int|
            0 <= i < toured.arrived.len() ==> (self.key_of(#[trigger] toured.arrived[i]) matches Some(key)
                ==> toured.seen.contains(key))
        &&& self.flags.follow_symlinks ==> forall|i: int, j: int|
            #![trigger toured.arrived[i], toured.arrived[j]]
            0 <= i < j < toured.arrived.len() && self.key_of(toured.arrived[i]) is Some
                ==> self.key_of(toured.arrived[i]) != self.key_of(toured.arrived[j])
    }

    proof fn path_is_proper(self, roots: Seq<PathView>, path: PathView, from: Toured, fuel: nat)
        requires
            self.is_proper(roots, from),
            roots.contains(path) || !(self.flags.skip_git && is_git_name(path)),
        ensures
            self.with_path(path, from, fuel) matches Some(to) ==> self.is_proper(roots, to),
        decreases fuel, 0nat, 0nat,
    {
        let lookup = (self.world.lookup)(path);
        if fuel > 0 && !(self.flags.ignore_hidden && path.is_hidden()) && is_stop(
            self.flags,
            from.seen,
            lookup,
        ) {
            let meta = lookup.effective(self.flags.follow_symlinks)->0;
            let there = Toured {
                seen: marked(self.flags, from.seen, meta),
                ..from.answered(1 + (self.cost)(path)).at(path)
            };
            assert(self.key_of(path) == meta.key());
            assert(forall|i: int|
                0 <= i < from.arrived.len() ==> there.arrived[i] == from.arrived[i]);
            assert(self.is_proper(roots, there));
            let list = world::listed_paths((self.world.listing)(path));
            kept_paths_are_kept(self.flags, list);
            self.paths_are_proper(
                roots,
                self.inside(path),
                there.answered(1),
                (fuel - 1) as nat,
            );
        }
    }

    /// A tour never comes where it may not, nor, where links are followed, to a directory twice.
    pub proof fn paths_are_proper(
        self,
        roots: Seq<PathView>,
        list: Seq<PathView>,
        from: Toured,
        fuel: nat,
    )
        requires
            self.is_proper(roots, from),
            forall|i: int|
                0 <= i < list.len() ==> roots.contains(#[trigger] list[i]) || !(self.flags.skip_git
                    && is_git_name(list[i])),
        ensures
            self.with_paths(list, from, fuel) matches Some(to) ==> self.is_proper(roots, to),
        decreases fuel, 1nat, list.len(),
    {
        if list.len() > 0 {
            self.path_is_proper(roots, list[0], from, fuel);
            if let Some(after) = self.with_path(list[0], from, fuel) {
                self.paths_are_proper(roots, list.drop_first(), after, fuel);
            }
        }
    }
}

proof fn kept_paths_are_kept(flags: DirFlags, list: Seq<PathView>)
    ensures
        forall|i: int|
            0 <= i < kept_paths(flags, list).len() ==> !(flags.skip_git && is_git_name(
                #[trigger] kept_paths(flags, list)[i],
            )),
    decreases list.len(),
{
    if list.len() > 0 {
        let before = kept_paths(flags, list.drop_last());
        kept_paths_are_kept(flags, list.drop_last());
        assert forall|i: int| 0 <= i < kept_paths(flags, list).len() implies !(flags.skip_git
            && is_git_name(#[trigger] kept_paths(flags, list)[i])) by {
            if i < before.len() {
                assert(kept_paths(flags, list)[i] == before[i]);
            }
        }
    }
}

/// Where a tour stands.
pub enum TourStage {
    /// Waits for what is found under a path.
    Lookup(PathView),
    /// Has come to a directory, and waits to be told whether to go in.
    Arrived(PathView),
    /// Waits for the entries of a directory.
    Listing(PathView),
    Done,
}

/// The state of a tour.
pub struct TourView {
    pub flags: DirFlags,
    /// The paths that are still to be gone through.
    pub pending: Seq<PathView>,
    pub seen: Set<(u64, u64)>,
    pub stage: TourStage,
}

impl TourView {
    /// A tour that is about to begin.
    pub open spec fn start(flags: DirFlags, roots: Seq<PathView>) -> TourView {
        TourView { flags, pending: roots, seen: Set::empty(), stage: TourStage::Done }.next()
    }

    /// On to the next path, or to the end.
    pub open spec fn next(self) -> TourView
        decreases self.pending.len(),
    {
        if self.pending.len() == 0 {
            TourView { stage: TourStage::Done, ..self }
        } else if self.flags.ignore_hidden && self.pending[0].is_hidden() {
            TourView { pending: self.pending.drop_first(), ..self }.next()
        } else {
            TourView {
                pending: self.pending.drop_first(),
                stage: TourStage::Lookup(self.pending[0]),
                ..self
            }
        }
    }

    /// The tour has learned what is found under the path that it asked about.
    pub open spec fn on_lookup(self, lookup: Lookup) -> TourView {
        if is_stop(self.flags, self.seen, lookup) {
            TourView {
                seen: marked(
                    self.flags,
                    self.seen,
                    lookup.effective(self.flags.follow_symlinks)->0,
                ),
                stage: TourStage::Arrived(self.stage->Lookup_0),
                ..self
            }
        } else {
            self.next()
        }
    }

    /// The tour has been told whether to go into the directory that it has come to.
    pub open spec fn on_decision(self, enter: bool) -> TourView {
        if enter {
            TourView { stage: TourStage::Listing(self.stage->Arrived_0), ..self }
        } else {
            self.next()
        }
    }

    /// The tour has learned the entries of the directory that it asked about.
    pub open spec fn on_listing(self, listing: Option<Seq<ItemView>>) -> TourView {
        TourView {
            pending: kept_paths(self.flags, world::listed_paths(listing)) + self.pending,
            ..self
        }.next()
    }

    /// Whether hidden paths are left out where that is asked for.
    pub open spec fn wf(self) -> bool {
        self.stage matches TourStage::Lookup(path) ==> !(self.flags.ignore_hidden
            && path.is_hidden())
    }

    pub proof fn next_is_wf(self)
        ensures
            self.next().wf(),
            self.next().flags == self.flags,
            self.next().seen == self.seen,
            self.next().stage is Lookup || self.next().stage is Done,
        decreases self.pending.len(),
    {
        if self.pending.len() > 0 && self.flags.ignore_hidden && self.pending[0].is_hidden() {
            TourView { pending: self.pending.drop_first(), ..self }.next_is_wf();
        }
    }

    pub open spec fn toured(self, arrived: Seq<PathView>, answers: nat) -> Toured {
        Toured { arrived, seen: self.seen, answers }
    }

    /// What a tour that has come to `arrived` with `answers` answers comes to in a file system that
    /// holds still.
    pub open spec fn forecast(
        self,
        env: TourEnv,
        arrived: Seq<PathView>,
        answers: nat,
        fuel: nat,
    ) -> Option<Toured> {
        let t = self.toured(arrived, answers);
        match self.stage {
            TourStage::Lookup(path) => env.with_paths(seq![path] + self.pending, t, fuel),
            TourStage::Arrived(path) => {
                let there = t.at(path).answered((env.cost)(path));
                if (env.enters)(path) {
                    env.with_paths(env.inside(path) + self.pending, there.answered(1), fuel)
                } else {
                    env.with_paths(self.pending, there, fuel)
                }
            },
            TourStage::Listing(path) => env.with_paths(
                env.inside(path) + self.pending,
                t.answered(1),
                fuel,
            ),
            TourStage::Done => Some(t),
        }
    }

    pub proof fn next_keeps_forecast(
        self,
        env: TourEnv,
        arrived: Seq<PathView>,
        answers: nat,
        fuel: nat,
    )
        requires
            env.flags == self.flags,
            env.with_paths(self.pending, self.toured(arrived, answers), fuel) is Some,
        ensures
            self.next().forecast(env, arrived, answers, fuel) == env.with_paths(
                self.pending,
                self.toured(arrived, answers),
                fuel,
            ),
        decreases self.pending.len(),
    {
        if self.pending.len() > 0 {
            if self.flags.ignore_hidden && self.pending[0].is_hidden() {
                let from = self.toured(arrived, answers);
                assert(env.with_path(self.pending[0], from, fuel) == Some(from));
                TourView { pending: self.pending.drop_first(), ..self }.next_keeps_forecast(
                    env,
                    arrived,
                    answers,
                    fuel,
                );
            } else {
                assert(seq![self.pending[0]] + self.pending.drop_first() =~= self.pending);
            }
        }
    }

    /// What is found under a path does not change what the tour comes to.
    pub proof fn lookup_keeps_forecast(
        self,
        env: TourEnv,
        arrived: Seq<PathView>,
        answers: nat,
        fuel: nat,
    )
        requires
            self.wf(),
            env.flags == self.flags,
            self.stage is Lookup,
            self.forecast(env, arrived, answers, fuel) is Some,
        ensures
            self.on_lookup((env.world.lookup)(self.stage->Lookup_0)).forecast(
                env,
                arrived,
                answers + 1,
                fuel,
            ) == self.forecast(env, arrived, answers, fuel),
    {
        let path = self.stage->Lookup_0;
        let lookup = (env.world.lookup)(path);
        let list = seq![path] + self.pending;
        let t = self.toured(arrived, answers);
        assert(list.drop_first() =~= self.pending);
        if is_stop(self.flags, self.seen, lookup) {
            let meta = lookup.effective(self.flags.follow_symlinks)->0;
            let there = Toured {
                seen: marked(self.flags, self.seen, meta),
                ..t.answered(1 + (env.cost)(path)).at(path)
            };
            if !(env.enters)(path) {
                assert(env.with_path(path, t, fuel) == Some(there));
            } else {
                assert(env.with_path(path, t, fuel) == env.with_paths(
                    env.inside(path),
                    there.answered(1),
                    (fuel - 1) as nat,
                ));
                env.paths_fuel(env.inside(path), there.answered(1), (fuel - 1) as nat);
                env.paths_in_parts(env.inside(path), self.pending, there.answered(1), fuel);
            }
        } else {
            assert(env.with_path(path, t, fuel) == Some(t.answered(1)));
            self.next_keeps_forecast(env, arrived, answers + 1, fuel);
        }
    }

    /// The decision that the file system calls for does not change what the tour comes to.
    pub proof fn decision_keeps_forecast(
        self,
        env: TourEnv,
        arrived: Seq<PathView>,
        answers: nat,
        fuel: nat,
    )
        requires
            env.flags == self.flags,
            self.stage is Arrived,
            self.forecast(env, arrived, answers, fuel) is Some,
        ensures
            ({
                let path = self.stage->Arrived_0;
                self.on_decision((env.enters)(path)).forecast(
                    env,
                    arrived.push(path),
                    answers + (env.cost)(path),
                    fuel,
                ) == self.forecast(env, arrived, answers, fuel)
            }),
    {
        let path = self.stage->Arrived_0;
        if !(env.enters)(path) {
            self.next_keeps_forecast(env, arrived.push(path), answers + (env.cost)(path), fuel);
        }
    }

    /// The entries of a directory do not change what the tour comes to.
    pub proof fn listing_keeps_forecast(
        self,
        env: TourEnv,
        arrived: Seq<PathView>,
        answers: nat,
        fuel: nat,
    )
        requires
            env.flags == self.flags,
            self.stage is Listing,
            self.forecast(env, arrived, answers, fuel) is Some,
        ensures
            self.on_listing((env.world.listing)(self.stage->Listing_0)).forecast(
                env,
                arrived,
                answers + 1,
                fuel,
            ) == self.forecast(env, arrived, answers, fuel),
    {
        TourView {
            pending: env.inside(self.stage->Listing_0) + self.pending,
            ..self
        }.next_keeps_forecast(env, arrived, answers + 1, fuel);
    }

    /// A tour has never taken more answers than it will have taken in the end, and one that has ended
    /// has taken them all.
    pub proof fn forecast_is_ahead(
        self,
        env: TourEnv,
        arrived: Seq<PathView>,
        answers: nat,
        fuel: nat,
    )
        ensures
            self.forecast(env, arrived, answers, fuel) matches Some(end) ==> answers <= end.answers
                && arrived.is_prefix_of(end.arrived) && (self.stage is Lookup && self.wf() && env.flags == self.flags ==> answers
                < end.answers) && (self.stage is Listing ==> answers < end.answers) && (
            self.stage is Arrived ==> answers + (env.cost)(self.stage->Arrived_0) <= end.answers),
    {
        let t = self.toured(arrived, answers);
        match self.stage {
            TourStage::Lookup(path) => {
                let list = seq![path] + self.pending;
                assert(list.drop_first() =~= self.pending);
                env.paths_grow(list, t, fuel);
                if self.wf() && env.flags == self.flags && env.with_paths(list, t, fuel) is Some {
                    let after = env.with_path(path, t, fuel)->0;
                    env.paths_grow(self.pending, after, fuel);
                    let lookup = (env.world.lookup)(path);
                    if is_stop(self.flags, self.seen, lookup) {
                        let meta = lookup.effective(self.flags.follow_symlinks)->0;
                        let there = Toured {
                            seen: marked(self.flags, self.seen, meta),
                            ..t.answered(1 + (env.cost)(path)).at(path)
                        };
                        env.paths_grow(env.inside(path), there.answered(1), (fuel - 1) as nat);
                    }
                }
            },
            TourStage::Arrived(path) => {
                let there = t.at(path).answered((env.cost)(path));
                env.paths_grow(env.inside(path) + self.pending, there.answered(1), fuel);
                env.paths_grow(self.pending, there, fuel);
            },
            TourStage::Listing(path) => {
                env.paths_grow(env.inside(path) + self.pending, t.answered(1), fuel);
            },
            TourStage::Done => {},
        }
    }
}

enum Stage {
    Lookup(PathBuf),
    Arrived(PathBuf),
    Listing(PathBuf),
    Done,
}

impl Stage {
    spec fn deep(self) -> TourStage {
        match self {
            Stage::Lookup(path) => TourStage::Lookup(paths::path_view(path)),
            Stage::Arrived(path) => TourStage::Arrived(paths::path_view(path)),
            Stage::Listing(path) => TourStage::Listing(paths::path_view(path)),
            Stage::Done => TourStage::Done,
        }
    }
}

/// What a tour waits for.
pub enum TourRequest<'a> {
    /// What is found under the path; answered by `looked_up`.
    Lookup(&'a PathBuf),
    /// Whether to go into the directory; answered by `decided`.
    Decision(&'a PathBuf),
    /// The entries of the directory; answered by `listed`.
    Listing(&'a PathBuf),
    /// Nothing: the tour has ended.
    Done,
}

impl<'a> TourRequest<'a> {
    /// Whether this is what a tour in the given state waits for.
    pub open spec fn is_for(self, tour: TourView) -> bool {
        match self {
            TourRequest::Lookup(path) => tour.stage == TourStage::Lookup(paths::path_view(*path)),
            TourRequest::Decision(path) => tour.stage == TourStage::Arrived(
                paths::path_view(*path),
            ),
            TourRequest::Listing(path) => tour.stage == TourStage::Listing(paths::path_view(*path)),
            TourRequest::Done => tour.stage is Done,
        }
    }
}

/// A tour under way. It waits for one answer at a time.
pub struct DirWalk {
    flags: DirFlags,
    /// The paths that are still to be gone through, the next one at the back.
    pending: Vec<PathBuf>,
    seen: SeenInodes,
    stage: Stage,
}

impl View for DirWalk {
    type V = TourView;

    closed spec fn view(&self) -> TourView {
        TourView {
            flags: self.flags,
            pending: world::stacked(self.pending@),
            seen: self.seen@,
            stage: self.stage.deep(),
        }
    }
}

fn git_name(path: &PathBuf) -> (yes: bool)
    ensures
        yes == is_git_name(paths::path_view(*path)),
{
    match paths::file_name(path) {
        Some(name) => {
            let yes = name.len() == 4 && name[0] == 0x2e && name[1] == 0x67 && name[2] == 0x69
                && name[3] == 0x74;
            assert(yes ==> name@ =~= seq![0x2eu8, 0x67u8, 0x69u8, 0x74u8]);
            yes
        },
        None => false,
    }
}

impl DirWalk {
    /// Begins a tour of the directories below `roots`.
    pub fn new(roots: &Vec<PathBuf>, flags: DirFlags) -> (walk: DirWalk)
        ensures
            walk@ == TourView::start(flags, paths::path_views(roots@)),
    {
        let mut pending: Vec<PathBuf> = Vec::new();
        let mut i: usize = roots.len();
        let ghost all = paths::path_views(roots@);
        assert(all.skip(i as int) =~= world::stacked(pending@));
        while i > 0
            invariant
                i <= roots@.len(),
                all == paths::path_views(roots@),
                world::stacked(pending@) == all.skip(i as int),
            decreases i,
        {
            i = i - 1;
            let ghost before = pending@;
            pending.push(roots[i].clone());
            assert(world::stacked(pending@) =~= seq![all[i as int]] + world::stacked(before));
            assert(all.skip(i as int) =~= seq![all[i as int]] + all.skip(i + 1));
        }
        assert(all.skip(0) =~= all);
        let walk = DirWalk { flags, pending, seen: SeenInodes::new(), stage: Stage::Done };
        walk.next()
    }

    /// What the tour waits for.
    pub fn request(&self) -> (request: TourRequest<'_>)
        ensures
            request.is_for(self@),
    {
        match &self.stage {
            Stage::Lookup(path) => TourRequest::Lookup(path),
            Stage::Arrived(path) => TourRequest::Decision(path),
            Stage::Listing(path) => TourRequest::Listing(path),
            Stage::Done => TourRequest::Done,
        }
    }

    /// Whether the tour treats a symbolic link as what it leads to.
    pub fn follows_symlinks(&self) -> (follows: bool)
        ensures
            follows == self@.flags.follow_symlinks,
    {
        self.flags.follow_symlinks
    }

    fn next(self) -> (walk: DirWalk)
        ensures
            walk@ == self@.next(),
    {
        let mut walk = self;
        loop
            invariant
                walk@.next() == self@.next(),
            decreases walk.pending@.len(),
        {
            let ghost before = walk.pending@;
            match walk.pending.pop() {
                None => {
                    assert(walk.pending@ =~= before);
                    walk.stage = Stage::Done;
                    return walk;
                },
                Some(path) => {
                    assert(world::stacked(walk.pending@) =~= world::stacked(before).drop_first());
                    assert(world::stacked(before)[0] == paths::path_view(path));
                    if !(walk.flags.ignore_hidden && paths::is_hidden(&path)) {
                        walk.stage = Stage::Lookup(path);
                        return walk;
                    }
                },
            }
        }
    }

    /// Goes on after the path that was asked about has been looked up.
    pub fn looked_up(self, lookup: Lookup) -> (walk: DirWalk)
        requires
            self@.stage is Lookup,
        ensures
            walk@ == self@.on_lookup(lookup),
    {
        let mut walk = self;
        let meta = match metadata::effective_metadata(lookup, walk.flags.follow_symlinks) {
            None => {
                return walk.next();
            },
            Some(meta) => meta,
        };
        if meta.kind != FileKind::Directory {
            return walk.next();
        }
        if walk.flags.follow_symlinks && !metadata::mark_dir_visited(&meta, &mut walk.seen) {
            assert(walk@.seen =~= self@.seen);
            return walk.next();
        }
        let mut stage = Stage::Done;
        std::mem::swap(&mut stage, &mut walk.stage);
        if let Stage::Lookup(path) = stage {
            walk.stage = Stage::Arrived(path);
        }
        walk
    }

    /// Goes into the directory that the tour has come to, or past it.
    pub fn decided(self, enter: bool) -> (walk: DirWalk)
        requires
            self@.stage is Arrived,
        ensures
            walk@ == self@.on_decision(enter),
    {
        let mut walk = self;
        if !enter {
            return walk.next();
        }
        let mut stage = Stage::Done;
        std::mem::swap(&mut stage, &mut walk.stage);
        if let Stage::Arrived(path) = stage {
            walk.stage = Stage::Listing(path);
        }
        walk
    }

    /// Goes on after the entries of the directory that was asked about have been read.
    pub fn listed(self, listing: Option<Vec<DirItem>>) -> (walk: DirWalk)
        requires
            self@.stage is Listing,
        ensures
            walk@ == self@.on_listing(world::listing_view(listing)),
            walk@.stage is Lookup || walk@.stage is Done,
    {
        let mut walk = self;
        let ghost before = walk@.pending;
        let ghost flags = walk.flags;
        match listing {
            None => {
                assert(kept_paths(flags, Seq::<PathView>::empty()) + before =~= before);
            },
            Some(items) => {
                let ghost given = world::item_views(items@);
                let mut rest: Vec<DirItem> = items;
                while rest.len() > 0
                    invariant
                        flags == walk.flags,
                        flags == self@.flags,
                        walk@.seen == self@.seen,
                        walk@.stage == self@.stage,
                        kept_paths(flags, world::entry_paths(world::item_views(rest@)))
                            + walk@.pending == kept_paths(flags, world::entry_paths(given)) + before,
                    decreases rest@.len(),
                {
                    let ghost all = world::item_views(rest@);
                    let ghost later = walk@.pending;
                    let last = rest.pop();
                    assert(world::item_views(rest@) =~= all.drop_last());
                    if let Some(DirItem::Entry { path, .. }) = last {
                        let ghost view = paths::path_view(path);
                        let ghost shorter = world::entry_paths(all.drop_last());
                        assert(shorter.push(view).drop_last() =~= shorter);
                        if !(walk.flags.skip_git && git_name(&path)) {
                            walk.pending.push(path);
                            assert(walk@.pending =~= seq![view] + later);
                            assert(kept_paths(flags, shorter).push(view) + later =~= kept_paths(
                                flags,
                                shorter,
                            ) + walk@.pending);
                        }
                    }
                }
                assert(kept_paths(flags, Seq::<PathView>::empty()) + walk@.pending =~= walk@.pending);
            },
        }
        proof {
            walk@.next_is_wf();
        }
        walk.next()
    }
}

} // verus!
