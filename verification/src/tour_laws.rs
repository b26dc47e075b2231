//! What holds of every tour of directories: where it comes, and that it misses nothing.

use crate::dir_walk;
use crate::dir_walk::{DirFlags, TourEnv, TourView, Toured};
use crate::metadata::{FileKind, Lookup, Metadata};
use crate::paths::PathView;
use crate::world;
use crate::world::ItemView;
use vstd::prelude::*;

verus! {

/// The path of an entry of a directory that a tour goes on to: that of an entry that could be read,
/// unless it is named `.git` and such entries are left out.
pub open spec fn onward(flags: DirFlags, item: ItemView) -> Option<PathView> {
    match item {
        ItemView::Unreadable => None,
        ItemView::Entry { path, .. } => if flags.skip_git && path.file_name() == Some(
            seq![0x2eu8, 0x67u8, 0x69u8, 0x74u8],
        ) {
            None
        } else {
            Some(path)
        },
    }
}

/// Of the entries of a directory a tour goes on to every one that could be read, in their order, but
/// for those named `.git` where they are left out.
pub proof fn every_entry_is_kept(flags: DirFlags, items: Seq<ItemView>)
    ensures
        dir_walk::kept_paths(flags, world::listed_paths(Some(items))) == items.filter_map(
            |item: ItemView| onward(flags, item),
        ),
        dir_walk::kept_paths(flags, world::listed_paths(None)).len() == 0,
    decreases items.len(),
{
    let kept = |item: ItemView| onward(flags, item);
    let list = world::entry_paths(items);
    if items.len() > 0 {
        let earlier = items.drop_last();
        every_entry_is_kept(flags, earlier);
        if let ItemView::Entry { path, .. } = items.last() {
            assert(list.drop_last() =~= world::entry_paths(earlier));
            assert(dir_walk::kept_paths(flags, list) =~= items.filter_map(kept));
        }
    }
}

/// What a tour does once it has learned what is under a path, whether to go in, or what is in a
/// directory. It comes to a directory unless it was there before, and passes over everything else;
/// it asks for the entries of a directory that it is to go into; and it goes on to those entries
/// before anything that it had pending.
pub proof fn tour_goes_on(
    tour: TourView,
    path: PathView,
    lookup: Lookup,
    enter: bool,
    listing: Option<Seq<ItemView>>,
)
    ensures
        ({
            let at = TourView { stage: dir_walk::TourStage::Lookup(path), ..tour };
            let meta = if tour.flags.follow_symlinks && (lookup.link matches Some(link) && link.kind
                == FileKind::Symlink) {
                lookup.target
            } else {
                lookup.link
            };
            let arrives = meta matches Some(meta) && meta.kind == FileKind::Directory && !(
            tour.flags.follow_symlinks && (meta.key() matches Some(key) && tour.seen.contains(key)));
            &&& arrives ==> {
                &&& at.on_lookup(lookup).stage == dir_walk::TourStage::Arrived(path)
                &&& at.on_lookup(lookup).pending == tour.pending
                &&& at.on_lookup(lookup).seen == (match (meta->0).key() {
                    Some(key) if tour.flags.follow_symlinks => tour.seen.insert(key),
                    _ => tour.seen,
                })
            }
            &&& !arrives ==> at.on_lookup(lookup) == tour.next()
        }),
        ({
            let at = TourView { stage: dir_walk::TourStage::Arrived(path), ..tour };
            &&& enter ==> at.on_decision(enter) == (TourView {
                stage: dir_walk::TourStage::Listing(path),
                ..tour
            })
            &&& !enter ==> at.on_decision(enter) == tour.next()
        }),
        ({
            let at = TourView { stage: dir_walk::TourStage::Listing(path), ..tour };
            let items = match listing {
                Some(items) => items,
                None => Seq::empty(),
            };
            let kept = items.filter_map(|item: ItemView| onward(tour.flags, item));
            at.on_listing(listing) == (TourView { pending: kept + tour.pending, ..tour }).next()
        }),
{
    let items = match listing {
        Some(items) => items,
        None => Seq::empty(),
    };
    let none = Seq::<ItemView>::empty();
    every_entry_is_kept(tour.flags, items);
    assert(none.filter_map(|item: ItemView| onward(tour.flags, item)) =~= Seq::empty());
    next_ignores_stage(tour, dir_walk::TourStage::Lookup(path));
    next_ignores_stage(tour, dir_walk::TourStage::Arrived(path));
    let pending = dir_walk::kept_paths(tour.flags, world::listed_paths(listing)) + tour.pending;
    next_ignores_stage(TourView { pending, ..tour }, dir_walk::TourStage::Listing(path));
}

proof fn next_ignores_stage(tour: TourView, stage: dir_walk::TourStage)
    ensures
        (TourView { stage, ..tour }).next() == tour.next(),
    decreases tour.pending.len(),
{
    if tour.pending.len() > 0 {
        next_ignores_stage(TourView { pending: tour.pending.drop_first(), ..tour }, stage);
    }
}

/// The next path that a tour asks about is the first of those pending that is not to be left out as
/// hidden, and those before it are passed over. Where there is none the tour has ended.
pub proof fn next_is_first_that_counts(tour: TourView) -> (passed: int)
    ensures
        0 <= passed <= tour.pending.len(),
        forall|i: int|
            0 <= i < passed ==> tour.flags.ignore_hidden && (#[trigger] tour.pending[i]).is_hidden(),
        tour.next().flags == tour.flags,
        tour.next().seen == tour.seen,
        passed == tour.pending.len() ==> tour.next().stage is Done && tour.next().pending.len() == 0,
        passed < tour.pending.len() ==> {
            &&& !(tour.flags.ignore_hidden && tour.pending[passed].is_hidden())
            &&& tour.next().stage == dir_walk::TourStage::Lookup(tour.pending[passed])
            &&& tour.next().pending == tour.pending.skip(passed + 1)
        },
    decreases tour.pending.len(),
{
    if tour.pending.len() == 0 {
        0
    } else if tour.flags.ignore_hidden && tour.pending[0].is_hidden() {
        let later = TourView { pending: tour.pending.drop_first(), ..tour };
        let passed = next_is_first_that_counts(later);
        assert forall|i: int| 0 <= i < passed + 1 implies tour.flags.ignore_hidden && (
        #[trigger] tour.pending[i]).is_hidden() by {
            if i > 0 {
                assert(later.pending[i - 1] == tour.pending[i]);
            }
        }
        if passed < later.pending.len() {
            assert(later.pending[passed] == tour.pending[passed + 1]);
            assert(later.pending.skip(passed + 1) =~= tour.pending.skip(passed + 2));
        }
        passed + 1
    } else {
        assert(tour.pending.drop_first() =~= tour.pending.skip(1));
        0
    }
}

impl TourEnv {
    /// The metadata that counts for a path.
    pub open spec fn meta(self, path: PathView) -> Option<Metadata> {
        (self.world.lookup)(path).effective(self.flags.follow_symlinks)
    }

    /// Whether a tour that has come to `arrived` has not missed a path: it came to it if that is a
    /// directory that is not to be left out as hidden, or, where links are followed, came to the same
    /// directory under another path.
    pub open spec fn has_met(self, arrived: Seq<PathView>, path: PathView) -> bool {
        ||| !(self.meta(path) matches Some(meta) && meta.kind == FileKind::Directory)
        ||| self.flags.ignore_hidden && path.is_hidden()
        ||| arrived.contains(path)
        ||| self.flags.follow_symlinks && self.meta(path)->0.key() is Some && exists|j: int|
            0 <= j < arrived.len() && self.key_of(#[trigger] arrived[j]) == self.meta(path)->0.key()
    }

    /// Whether a tour that has come to `arrived` has missed nothing in the directory that it came to
    /// as the `i`th: where it goes in, it has not missed an entry that could be read, but for those
    /// named `.git` where they are left out.
    pub open spec fn has_searched(self, arrived: Seq<PathView>, i: int) -> bool {
        (self.enters)(arrived[i]) ==> match (self.world.listing)(arrived[i]) {
            Some(items) => forall|k: int|
                0 <= k < items.len() ==> (onward(self.flags, #[trigger] items[k]) matches Some(path)
                    ==> self.has_met(arrived, path)),
            None => true,
        }
    }

    /// Whether there was a way to the directory that a tour came to as the `i`th: it is one of the
    /// roots, or an entry that could be read of a directory that the tour came to before and went
    /// into, and that is not named `.git` where those are left out.
    pub open spec fn was_led_to(self, roots: Seq<PathView>, arrived: Seq<PathView>, i: int) -> bool {
        ||| roots.contains(arrived[i])
        ||| exists|j: int| 0 <= j < i && self.leads(#[trigger] arrived[j], arrived[i])
    }

    /// Whether a directory is gone into and has an entry under the path that is gone on to.
    pub open spec fn leads(self, from: PathView, path: PathView) -> bool {
        &&& (self.enters)(from)
        &&& (self.world.listing)(from) matches Some(items)
        &&& exists|k: int|
            0 <= k < items.len() && onward(self.flags, #[trigger] items[k]) == Some(path)
    }

    /// Whether every directory that counts as visited was come to.
    pub open spec fn is_tight(self, toured: Toured) -> bool {
        forall|key: (u64, u64)| #[trigger]
            toured.seen.contains(key) ==> exists|j: int|
                0 <= j < toured.arrived.len() && self.key_of(#[trigger] toured.arrived[j]) == Some(
                    key,
                )
    }

    proof fn met_stays(self, arrived: Seq<PathView>, more: Seq<PathView>, path: PathView)
        requires
            self.has_met(arrived, path),
            arrived.is_prefix_of(more),
        ensures
            self.has_met(more, path),
    {
        if arrived.contains(path) {
            let i = choose|i: int| 0 <= i < arrived.len() && arrived[i] == path;
            assert(more[i] == path);
        } else if exists|j: int|
            0 <= j < arrived.len() && self.key_of(#[trigger] arrived[j])
                == self.meta(path)->0.key() {
            let j = choose|j: int|
                0 <= j < arrived.len() && self.key_of(#[trigger] arrived[j])
                    == self.meta(path)->0.key();
            assert(more[j] == arrived[j]);
        }
    }

    proof fn searched_stays(self, arrived: Seq<PathView>, more: Seq<PathView>, i: int)
        requires
            0 <= i < arrived.len(),
            self.has_searched(arrived, i),
            arrived.is_prefix_of(more),
        ensures
            self.has_searched(more, i),
    {
        assert(more[i] == arrived[i]);
        if (self.enters)(arrived[i]) {
            if let Some(items) = (self.world.listing)(arrived[i]) {
                assert forall|k: int| 0 <= k < items.len() implies (onward(
                    self.flags,
                    #[trigger] items[k],
                ) matches Some(path) ==> self.has_met(more, path)) by {
                    if let Some(path) = onward(self.flags, items[k]) {
                        self.met_stays(arrived, more, path);
                    }
                }
            }
        }
    }

    pub proof fn inside_is_onward(self, path: PathView)
        ensures
            forall|p: PathView| #[trigger]
                self.inside(path).contains(p) <==> ((self.world.listing)(path) matches Some(items)
                    && exists|k: int|
                    0 <= k < items.len() && onward(self.flags, #[trigger] items[k]) == Some(p)),
    {
        if let Some(items) = (self.world.listing)(path) {
            let kept = |item: ItemView| onward(self.flags, item);
            every_entry_is_kept(self.flags, items);
            let list = items.filter_map(kept);
            assert(self.inside(path) == list);
            assert forall|p: PathView| #[trigger] list.contains(p) <==> exists|k: int|
                0 <= k < items.len() && onward(self.flags, #[trigger] items[k]) == Some(p) by {
                if list.contains(p) {
                    items.lemma_filter_map_contains(kept, p);
                    let item = choose|item: ItemView| #[trigger] items.contains(item) && kept(item)
                        == Some(p);
                    let k = choose|k: int| 0 <= k < items.len() && items[k] == item;
                    assert(onward(self.flags, items[k]) == Some(p));
                }
                if exists|k: int|
                    0 <= k < items.len() && onward(self.flags, #[trigger] items[k]) == Some(p) {
                    let k = choose|k: int|
                        0 <= k < items.len() && onward(self.flags, #[trigger] items[k]) == Some(p);
                    kept_is_listed(self.flags, items, k);
                }
            }
        } else {
            every_entry_is_kept(self.flags, Seq::empty());
        }
    }

    proof fn answers_keep_tight(self, toured: Toured, times: nat)
        requires
            self.is_tight(toured),
        ensures
            self.is_tight(toured.answered(times)),
    {
        let after = toured.answered(times);
        assert forall|key: (u64, u64)| #[trigger] after.seen.contains(key) implies exists|j: int|
            0 <= j < after.arrived.len() && self.key_of(#[trigger] after.arrived[j]) == Some(
                key,
            ) by {
            assert(toured.seen.contains(key));
            let j = choose|j: int|
                0 <= j < toured.arrived.len() && self.key_of(#[trigger] toured.arrived[j]) == Some(
                    key,
                );
            assert(after.arrived[j] == toured.arrived[j]);
        }
    }

    proof fn path_misses_nothing(self, path: PathView, from: Toured, fuel: nat)
        requires
            self.is_tight(from),
        ensures
            self.with_path(path, from, fuel) matches Some(to) ==> {
                &&& self.is_tight(to)
                &&& self.has_met(to.arrived, path)
                &&& from.arrived.is_prefix_of(to.arrived)
                &&& forall|i: int|
                    #![trigger to.arrived[i]]
                    from.arrived.len() <= i < to.arrived.len() ==> self.has_searched(to.arrived, i)
            },
        decreases fuel, 0nat, 0nat,
    {
        let lookup = (self.world.lookup)(path);
        self.answers_keep_tight(from, 1);
        if fuel > 0 && !(self.flags.ignore_hidden && path.is_hidden()) {
            if dir_walk::is_stop(self.flags, from.seen, lookup) {
                let meta = lookup.effective(self.flags.follow_symlinks)->0;
                let there = Toured {
                    seen: dir_walk::marked(self.flags, from.seen, meta),
                    ..from.answered(1 + (self.cost)(path)).at(path)
                };
                let n = from.arrived.len() as int;
                assert(there.arrived[n] == path);
                assert(self.key_of(path) == meta.key());
                assert(self.is_tight(there)) by {
                    assert forall|key: (u64, u64)| #[trigger] there.seen.contains(key) implies exists|
                        j: int,
                    |
                        0 <= j < there.arrived.len() && self.key_of(#[trigger] there.arrived[j])
                            == Some(key) by {
                        if from.seen.contains(key) {
                            let j = choose|j: int|
                                0 <= j < from.arrived.len() && self.key_of(
                                    #[trigger] from.arrived[j],
                                ) == Some(key);
                            assert(there.arrived[j] == from.arrived[j]);
                        } else {
                            assert(self.key_of(there.arrived[n]) == Some(key));
                        }
                    }
                }
                assert(from.arrived.is_prefix_of(there.arrived));
                if (self.enters)(path) {
                    let list = self.inside(path);
                    let opened = there.answered(1);
                    self.answers_keep_tight(there, 1);
                    self.paths_miss_nothing(list, opened, (fuel - 1) as nat);
                    self.inside_is_onward(path);
                    if let Some(to) = self.with_paths(list, opened, (fuel - 1) as nat) {
                        assert(to.arrived[n] == path);
                        assert(from.arrived.is_prefix_of(to.arrived));
                        assert(to.arrived.contains(path));
                        assert(self.has_searched(to.arrived, n)) by {
                            if let Some(items) = (self.world.listing)(path) {
                                assert forall|k: int| 0 <= k < items.len() implies (onward(
                                    self.flags,
                                    #[trigger] items[k],
                                ) matches Some(p) ==> self.has_met(to.arrived, p)) by {
                                    if let Some(p) = onward(self.flags, items[k]) {
                                        assert(list.contains(p));
                                        let i = choose|i: int| 0 <= i < list.len() && list[i] == p;
                                        assert(self.has_met(to.arrived, list[i]));
                                    }
                                }
                            }
                        }
                    }
                } else {
                    assert(there.arrived.contains(path));
                }
            } else if let Some(meta) = lookup.effective(self.flags.follow_symlinks) {
                if meta.is_dir() {
                    let key = meta.key()->0;
                    assert(from.seen.contains(key));
                    assert(self.has_met(from.arrived, path));
                }
            }
        }
    }

    proof fn paths_miss_nothing(self, list: Seq<PathView>, from: Toured, fuel: nat)
        requires
            self.is_tight(from),
        ensures
            self.with_paths(list, from, fuel) matches Some(to) ==> {
                &&& self.is_tight(to)
                &&& from.arrived.is_prefix_of(to.arrived)
                &&& forall|i: int|
                    0 <= i < list.len() ==> self.has_met(to.arrived, #[trigger] list[i])
                &&& forall|i: int|
                    #![trigger to.arrived[i]]
                    from.arrived.len() <= i < to.arrived.len() ==> self.has_searched(to.arrived, i)
            },
        decreases fuel, 1nat, list.len(),
    {
        if list.len() > 0 {
            let later = list.drop_first();
            self.path_misses_nothing(list[0], from, fuel);
            if let Some(after) = self.with_path(list[0], from, fuel) {
                self.paths_miss_nothing(later, after, fuel);
                if let Some(to) = self.with_paths(later, after, fuel) {
                    assert(from.arrived.is_prefix_of(to.arrived));
                    self.met_stays(after.arrived, to.arrived, list[0]);
                    assert forall|i: int| 0 <= i < list.len() implies self.has_met(
                        to.arrived,
                        #[trigger] list[i],
                    ) by {
                        if i > 0 {
                            assert(later[i - 1] == list[i]);
                        }
                    }
                    assert forall|i: int|
                        #![trigger to.arrived[i]]
                        from.arrived.len() <= i < to.arrived.len() implies self.has_searched(
                        to.arrived,
                        i,
                    ) by {
                        if i < after.arrived.len() {
                            assert(after.arrived[i] == to.arrived[i]);
                            self.searched_stays(after.arrived, to.arrived, i);
                        }
                    }
                }
            }
        }
    }

    proof fn path_is_led_to(self, roots: Seq<PathView>, path: PathView, from: Toured, fuel: nat)
        requires
            roots.contains(path) || exists|j: int|
                0 <= j < from.arrived.len() && self.leads(#[trigger] from.arrived[j], path),
        ensures
            self.with_path(path, from, fuel) matches Some(to) ==> {
                &&& from.arrived.is_prefix_of(to.arrived)
                &&& forall|i: int|
                    #![trigger to.arrived[i]]
                    from.arrived.len() <= i < to.arrived.len() ==> self.was_led_to(
                        roots,
                        to.arrived,
                        i,
                    )
            },
        decreases fuel, 0nat, 0nat,
    {
        let lookup = (self.world.lookup)(path);
        if fuel > 0 && !(self.flags.ignore_hidden && path.is_hidden()) && dir_walk::is_stop(
            self.flags,
            from.seen,
            lookup,
        ) {
            let meta = lookup.effective(self.flags.follow_symlinks)->0;
            let there = Toured {
                seen: dir_walk::marked(self.flags, from.seen, meta),
                ..from.answered(1 + (self.cost)(path)).at(path)
            };
            let n = from.arrived.len() as int;
            assert(there.arrived[n] == path);
            assert(self.was_led_to(roots, there.arrived, n)) by {
                if !roots.contains(path) {
                    let j = choose|j: int|
                        0 <= j < from.arrived.len() && self.leads(#[trigger] from.arrived[j], path);
                    assert(there.arrived[j] == from.arrived[j]);
                }
            }
            assert(from.arrived.is_prefix_of(there.arrived));
            if (self.enters)(path) {
                let list = self.inside(path);
                let opened = there.answered(1);
                self.inside_is_onward(path);
                assert forall|i: int| 0 <= i < list.len() implies roots.contains(#[trigger] list[i])
                    || exists|j: int|
                    0 <= j < opened.arrived.len() && self.leads(
                        #[trigger] opened.arrived[j],
                        list[i],
                    ) by {
                    assert(list.contains(list[i]));
                    assert(self.leads(opened.arrived[n], list[i]));
                }
                self.paths_are_led_to(roots, list, opened, (fuel - 1) as nat);
                if let Some(to) = self.with_paths(list, opened, (fuel - 1) as nat) {
                    assert(from.arrived.is_prefix_of(to.arrived));
                    self.led_to_stays(roots, there.arrived, to.arrived, n);
                }
            }
        }
    }

    proof fn led_to_stays(
        self,
        roots: Seq<PathView>,
        arrived: Seq<PathView>,
        more: Seq<PathView>,
        i: int,
    )
        requires
            0 <= i < arrived.len(),
            arrived.is_prefix_of(more),
            self.was_led_to(roots, arrived, i),
        ensures
            self.was_led_to(roots, more, i),
    {
        assert(more[i] == arrived[i]);
        if !roots.contains(arrived[i]) {
            let j = choose|j: int| 0 <= j < i && self.leads(#[trigger] arrived[j], arrived[i]);
            assert(more[j] == arrived[j]);
        }
    }

    proof fn paths_are_led_to(
        self,
        roots: Seq<PathView>,
        list: Seq<PathView>,
        from: Toured,
        fuel: nat,
    )
        requires
            forall|i: int|
                0 <= i < list.len() ==> roots.contains(#[trigger] list[i]) || exists|j: int|
                    0 <= j < from.arrived.len() && self.leads(#[trigger] from.arrived[j], list[i]),
        ensures
            self.with_paths(list, from, fuel) matches Some(to) ==> {
                &&& from.arrived.is_prefix_of(to.arrived)
                &&& forall|i: int|
                    #![trigger to.arrived[i]]
                    from.arrived.len() <= i < to.arrived.len() ==> self.was_led_to(
                        roots,
                        to.arrived,
                        i,
                    )
            },
        decreases fuel, 1nat, list.len(),
    {
        if list.len() > 0 {
            let later = list.drop_first();
            assert(roots.contains(list[0]) || exists|j: int|
                0 <= j < from.arrived.len() && self.leads(#[trigger] from.arrived[j], list[0]));
            self.path_is_led_to(roots, list[0], from, fuel);
            if let Some(after) = self.with_path(list[0], from, fuel) {
                assert forall|i: int| 0 <= i < later.len() implies roots.contains(
                    #[trigger] later[i],
                ) || exists|j: int|
                    0 <= j < after.arrived.len() && self.leads(
                        #[trigger] after.arrived[j],
                        later[i],
                    ) by {
                    assert(later[i] == list[i + 1]);
                    if !roots.contains(list[i + 1]) {
                        let j = choose|j: int|
                            0 <= j < from.arrived.len() && self.leads(
                                #[trigger] from.arrived[j],
                                list[i + 1],
                            );
                        assert(after.arrived[j] == from.arrived[j]);
                    }
                }
                self.paths_are_led_to(roots, later, after, fuel);
                if let Some(to) = self.with_paths(later, after, fuel) {
                    assert(from.arrived.is_prefix_of(to.arrived));
                    assert forall|i: int|
                        #![trigger to.arrived[i]]
                        from.arrived.len() <= i < to.arrived.len() implies self.was_led_to(
                        roots,
                        to.arrived,
                        i,
                    ) by {
                        if i < after.arrived.len() {
                            assert(after.arrived[i] == to.arrived[i]);
                            self.led_to_stays(roots, after.arrived, to.arrived, i);
                        }
                    }
                }
            }
        }
    }

    /// A tour misses nothing: it comes to every root that is a directory, and in every directory that
    /// it comes to and goes into, to every entry that is one; but for hidden ones where they are left
    /// out, for those named `.git` where they are, and, where links are followed, for a directory
    /// that it came to under another path. And it comes nowhere else.
    pub proof fn tour_misses_nothing(self, roots: Seq<PathView>, fuel: nat)
        ensures
            self.with_paths(
                roots,
                Toured { arrived: Seq::empty(), seen: Set::empty(), answers: 0 },
                fuel,
            ) matches Some(end) ==> {
                &&& forall|i: int|
                    0 <= i < roots.len() ==> self.has_met(end.arrived, #[trigger] roots[i])
                &&& forall|i: int|
                    #![trigger end.arrived[i]]
                    0 <= i < end.arrived.len() ==> self.has_searched(end.arrived, i)
                        && self.was_led_to(roots, end.arrived, i)
            },
    {
        let from = Toured { arrived: Seq::empty(), seen: Set::empty(), answers: 0 };
        self.paths_miss_nothing(roots, from, fuel);
        self.paths_are_led_to(roots, roots, from, fuel);
    }
}

/// How often a path stands in a list.
pub open spec fn occurrences(list: Seq<PathView>, path: PathView) -> nat
    decreases list.len(),
{
    if list.len() == 0 {
        0
    } else {
        occurrences(list.drop_last(), path) + if list.last() == path {
            1nat
        } else {
            0nat
        }
    }
}

pub proof fn occurrences_add(front: Seq<PathView>, back: Seq<PathView>, path: PathView)
    ensures
        occurrences(front + back, path) == occurrences(front, path) + occurrences(back, path),
    decreases back.len(),
{
    if back.len() == 0 {
        assert(front + back =~= front);
    } else {
        assert((front + back).drop_last() =~= front + back.drop_last());
        occurrences_add(front, back.drop_last(), path);
    }
}

impl TourEnv {
    /// How often a path stands among the entries of a directory that a tour goes on to from there.
    pub open spec fn led(self, from: PathView, path: PathView) -> nat {
        match (self.world.listing)(from) {
            Some(items) if (self.enters)(from) => occurrences(
                items.filter_map(|item: ItemView| onward(self.flags, item)),
                path,
            ),
            _ => 0,
        }
    }

    /// How often a path stands among the entries of all the directories of a list.
    pub open spec fn led_by_all(self, arrived: Seq<PathView>, path: PathView) -> nat
        decreases arrived.len(),
    {
        if arrived.len() == 0 {
            0
        } else {
            self.led_by_all(arrived.drop_last(), path) + self.led(arrived.last(), path)
        }
    }

    proof fn path_counts(self, one: PathView, path: PathView, from: Toured, fuel: nat)
        requires
            !self.flags.follow_symlinks,
            self.meta(one) matches Some(meta) && meta.kind == FileKind::Directory,
            !(self.flags.ignore_hidden && one.is_hidden()),
        ensures
            self.with_path(path, from, fuel) matches Some(to) ==> occurrences(to.arrived, one)
                + self.led_by_all(from.arrived, one) == occurrences(from.arrived, one)
                + self.led_by_all(to.arrived, one) + if path == one {
                1nat
            } else {
                0nat
            },
        decreases fuel, 0nat, 0nat,
    {
        let lookup = (self.world.lookup)(path);
        if fuel > 0 && !(self.flags.ignore_hidden && path.is_hidden()) && dir_walk::is_stop(
            self.flags,
            from.seen,
            lookup,
        ) {
            let meta = lookup.effective(self.flags.follow_symlinks)->0;
            let there = Toured {
                seen: dir_walk::marked(self.flags, from.seen, meta),
                ..from.answered(1 + (self.cost)(path)).at(path)
            };
            assert(there.arrived.drop_last() =~= from.arrived);
            if (self.enters)(path) {
                let list = self.inside(path);
                self.paths_count(one, list, there.answered(1), (fuel - 1) as nat);
                every_entry_is_kept(
                    self.flags,
                    match (self.world.listing)(path) {
                        Some(items) => items,
                        None => Seq::empty(),
                    },
                );
                assert(occurrences(list, one) == self.led(path, one));
            }
        }
    }

    proof fn paths_count(self, one: PathView, list: Seq<PathView>, from: Toured, fuel: nat)
        requires
            !self.flags.follow_symlinks,
            self.meta(one) matches Some(meta) && meta.kind == FileKind::Directory,
            !(self.flags.ignore_hidden && one.is_hidden()),
        ensures
            self.with_paths(list, from, fuel) matches Some(to) ==> occurrences(to.arrived, one)
                + self.led_by_all(from.arrived, one) == occurrences(from.arrived, one)
                + self.led_by_all(to.arrived, one) + occurrences(list, one),
        decreases fuel, 1nat, list.len(),
    {
        if list.len() > 0 {
            let later = list.drop_first();
            assert(list =~= seq![list[0]] + later);
            occurrences_add(seq![list[0]], later, one);
            assert(seq![list[0]].drop_last() =~= Seq::<PathView>::empty());
            assert(occurrences(seq![list[0]].drop_last(), one) == 0);
            self.path_counts(one, list[0], from, fuel);
            if let Some(after) = self.with_path(list[0], from, fuel) {
                self.paths_count(one, later, after, fuel);
            }
        }
    }

    /// Where links are not followed, a tour comes to a directory as often as there is a way to it: as
    /// often as it stands among the roots and among the entries of the directories that are gone
    /// into.
    pub proof fn tour_comes_as_often_as_led(self, roots: Seq<PathView>, path: PathView, fuel: nat)
        requires
            !self.flags.follow_symlinks,
            self.meta(path) matches Some(meta) && meta.kind == FileKind::Directory,
            !(self.flags.ignore_hidden && path.is_hidden()),
        ensures
            self.with_paths(
                roots,
                Toured { arrived: Seq::empty(), seen: Set::empty(), answers: 0 },
                fuel,
            ) matches Some(end) ==> occurrences(end.arrived, path) == occurrences(roots, path)
                + self.led_by_all(end.arrived, path),
    {
        let from = Toured { arrived: Seq::empty(), seen: Set::empty(), answers: 0 };
        self.paths_count(path, roots, from, fuel);
    }
}

proof fn kept_is_listed(flags: DirFlags, items: Seq<ItemView>, k: int)
    requires
        0 <= k < items.len(),
        onward(flags, items[k]) is Some,
    ensures
        items.filter_map(|item: ItemView| onward(flags, item)).contains(
            onward(flags, items[k])->0,
        ),
    decreases items.len(),
{
    let kept = |item: ItemView| onward(flags, item);
    let all = items.filter_map(kept);
    let path = onward(flags, items[k])->0;
    let earlier = items.drop_last();
    if k < earlier.len() {
        kept_is_listed(flags, earlier, k);
        assert(earlier[k] == items[k]);
        let before = earlier.filter_map(kept);
        let i = choose|i: int| 0 <= i < before.len() && before[i] == path;
        assert(all[i] == path);
    } else {
        assert(items.last() == items[k]);
        assert(all[all.len() - 1] == path);
    }
}

} // verus!
