//! What holds of every measurement: it counts everything that is there, and nothing twice.

use crate::measure::{MeasureEnv, MeasureStage, MeasureView, Measured};
use crate::metadata;
use crate::metadata::{FileKind, Lookup, Metadata};
use crate::paths::PathView;
use crate::tour_laws;
use crate::world;
use crate::world::ItemView;
use vstd::prelude::*;

verus! {

/// The path of an entry of a directory that could be read.
pub open spec fn readable(item: ItemView) -> Option<PathView> {
    match item {
        ItemView::Unreadable => None,
        ItemView::Entry { path, .. } => Some(path),
    }
}

proof fn entries_are_readable(items: Seq<ItemView>)
    ensures
        world::entry_paths(items) == items.filter_map(|item: ItemView| readable(item)),
    decreases items.len(),
{
    let all = items.filter_map(|item: ItemView| readable(item));
    if items.len() > 0 {
        entries_are_readable(items.drop_last());
        assert(world::entry_paths(items) =~= all);
    }
}

pub proof fn readable_is_listed(items: Seq<ItemView>, k: int)
    requires
        0 <= k < items.len(),
        readable(items[k]) is Some,
    ensures
        items.filter_map(|item: ItemView| readable(item)).contains(readable(items[k])->0),
    decreases items.len(),
{
    let all = items.filter_map(|item: ItemView| readable(item));
    let path = readable(items[k])->0;
    let earlier = items.drop_last();
    if k < earlier.len() {
        readable_is_listed(earlier, k);
        assert(earlier[k] == items[k]);
        let before = earlier.filter_map(|item: ItemView| readable(item));
        let i = choose|i: int| 0 <= i < before.len() && before[i] == path;
        assert(all[i] == path);
    } else {
        assert(items.last() == items[k]);
        assert(all[all.len() - 1] == path);
    }
}

impl MeasureEnv {
    /// What is found under a path: the metadata of what a symbolic link leads to where links are
    /// followed, else of the path itself.
    pub open spec fn found(self, path: PathView) -> Option<Metadata> {
        let lookup = (self.world.lookup)(path);
        if self.follow_symlinks && (lookup.link matches Some(link) && link.kind
            == FileKind::Symlink) {
            lookup.target
        } else {
            lookup.link
        }
    }

    /// What the thing under a path is told apart by, if there is one and it can be.
    pub open spec fn mark(self, path: PathView) -> Option<(u64, u64)> {
        match self.found(path) {
            Some(meta) => meta.key(),
            None => None,
        }
    }

    /// The entries of the directory under a path that could be read. What is no directory has none.
    pub open spec fn contents(self, path: PathView) -> Seq<PathView> {
        match (self.found(path), (self.world.listing)(path)) {
            (Some(meta), Some(items)) if meta.kind == FileKind::Directory => items.filter_map(
                |item: ItemView| readable(item),
            ),
            _ => Seq::empty(),
        }
    }

    /// The sizes of the things under the paths of a list together.
    pub open spec fn weight(self, counted: Seq<PathView>) -> nat
        decreases counted.len(),
    {
        if counted.len() == 0 {
            0
        } else {
            self.weight(counted.drop_last()) + match self.found(counted.last()) {
                Some(meta) => meta.size() as nat,
                None => 0nat,
            }
        }
    }

    /// Whether a path has not been missed where the things under the paths of a list were counted:
    /// there is nothing under it, or it was counted, or the same thing was under another path.
    pub open spec fn has_counted(self, counted: Seq<PathView>, path: PathView) -> bool {
        ||| self.found(path) is None
        ||| counted.contains(path)
        ||| self.mark(path) is Some && exists|j: int|
            0 <= j < counted.len() && self.mark(#[trigger] counted[j]) == self.mark(path)
    }

    /// Whether of what is in the directory that was counted as the `i`th nothing has been missed.
    pub open spec fn has_filled(self, counted: Seq<PathView>, i: int) -> bool {
        forall|k: int|
            0 <= k < self.contents(counted[i]).len() ==> self.has_counted(
                counted,
                #[trigger] self.contents(counted[i])[k],
            )
    }

    /// Whether what was counted as the `i`th lies in a directory that was counted before.
    pub open spec fn lies_within(self, counted: Seq<PathView>, i: int) -> bool {
        exists|j: int| 0 <= j < i && self.contents(#[trigger] counted[j]).contains(counted[i])
    }

    /// Whether `seen` holds what the things that were counted are told apart by, and none of those
    /// was counted twice.
    pub open spec fn is_record(self, counted: Seq<PathView>, seen: Set<(u64, u64)>) -> bool {
        &&& forall|i: int| 0 <= i < counted.len() ==> self.found(#[trigger] counted[i]) is Some
        &&& forall|i: int|
            0 <= i < counted.len() ==> (self.mark(#[trigger] counted[i]) matches Some(key)
                ==> seen.contains(key))
        &&& forall|key: (u64, u64)| #[trigger]
            seen.contains(key) ==> exists|j: int|
                0 <= j < counted.len() && self.mark(#[trigger] counted[j]) == Some(key)
        &&& forall|i: int, j: int|
            #![trigger counted[i], counted[j]]
            0 <= i < j < counted.len() && self.mark(counted[i]) is Some ==> self.mark(counted[i])
                != self.mark(counted[j])
    }

    /// How often a path stands among what is in the directories of a list.
    pub open spec fn held(self, counted: Seq<PathView>, path: PathView) -> nat
        decreases counted.len(),
    {
        if counted.len() == 0 {
            0
        } else {
            self.held(counted.drop_last(), path) + tour_laws::occurrences(
                self.contents(counted.last()),
                path,
            )
        }
    }

    pub proof fn weights_join(self, front: Seq<PathView>, back: Seq<PathView>)
        ensures
            self.weight(front + back) == self.weight(front) + self.weight(back),
        decreases back.len(),
    {
        if back.len() == 0 {
            assert(front + back =~= front);
        } else {
            assert((front + back).drop_last() =~= front + back.drop_last());
            self.weights_join(front, back.drop_last());
        }
    }

    proof fn held_joins(self, front: Seq<PathView>, back: Seq<PathView>, path: PathView)
        ensures
            self.held(front + back, path) == self.held(front, path) + self.held(back, path),
        decreases back.len(),
    {
        if back.len() == 0 {
            assert(front + back =~= front);
        } else {
            assert((front + back).drop_last() =~= front + back.drop_last());
            self.held_joins(front, back.drop_last(), path);
        }
    }

    pub proof fn counted_stays(self, counted: Seq<PathView>, more: Seq<PathView>, path: PathView)
        requires
            self.has_counted(counted, path),
            counted.is_prefix_of(more),
        ensures
            self.has_counted(more, path),
    {
        if counted.contains(path) {
            let i = choose|i: int| 0 <= i < counted.len() && counted[i] == path;
            assert(more[i] == path);
        } else if self.mark(path) is Some && exists|j: int|
            0 <= j < counted.len() && self.mark(#[trigger] counted[j]) == self.mark(path) {
            let j = choose|j: int|
                0 <= j < counted.len() && self.mark(#[trigger] counted[j]) == self.mark(path);
            assert(more[j] == counted[j]);
        }
    }

    pub proof fn filled_stays(self, counted: Seq<PathView>, more: Seq<PathView>, i: int)
        requires
            0 <= i < counted.len(),
            self.has_filled(counted, i),
            counted.is_prefix_of(more),
        ensures
            self.has_filled(more, i),
    {
        assert(more[i] == counted[i]);
        assert forall|k: int| 0 <= k < self.contents(more[i]).len() implies self.has_counted(
            more,
            #[trigger] self.contents(more[i])[k],
        ) by {
            assert(self.has_counted(counted, self.contents(counted[i])[k]));
            self.counted_stays(counted, more, self.contents(more[i])[k]);
        }
    }

    /// One more thing that was not counted before keeps the record.
    pub proof fn record_grows(
        self,
        counted: Seq<PathView>,
        seen: Set<(u64, u64)>,
        path: PathView,
    )
        requires
            self.is_record(counted, seen),
            self.found(path) is Some,
            !metadata::is_counted(seen, self.found(path)->0),
        ensures
            self.is_record(counted.push(path), metadata::counted(seen, self.found(path)->0)),
    {
        let more = counted.push(path);
        let after = metadata::counted(seen, self.found(path)->0);
        let n = counted.len() as int;
        assert(more[n] == path);
        assert forall|i: int| 0 <= i < more.len() implies self.found(#[trigger] more[i]) is Some by {
            if i < n {
                assert(more[i] == counted[i]);
            }
        }
        assert forall|i: int| 0 <= i < more.len() implies (self.mark(#[trigger] more[i]) matches Some(
            key,
        ) ==> after.contains(key)) by {
            if i < n {
                assert(more[i] == counted[i]);
            }
        }
        assert forall|key: (u64, u64)| #[trigger] after.contains(key) implies exists|j: int|
            0 <= j < more.len() && self.mark(#[trigger] more[j]) == Some(key) by {
            if seen.contains(key) {
                let j = choose|j: int|
                    0 <= j < counted.len() && self.mark(#[trigger] counted[j]) == Some(key);
                assert(more[j] == counted[j]);
            } else {
                assert(self.mark(more[n]) == Some(key));
            }
        }
        assert forall|i: int, j: int|
            #![trigger more[i], more[j]]
            0 <= i < j < more.len() && self.mark(more[i]) is Some implies self.mark(more[i])
            != self.mark(more[j]) by {
            assert(more[i] == counted[i]);
            if j < n {
                assert(more[j] == counted[j]);
            } else {
                assert(seen.contains(self.mark(counted[i])->0));
            }
        }
    }

    pub proof fn contents_are_entries(self, path: PathView)
        ensures
            self.found(path) == (self.world.lookup)(path).effective(self.follow_symlinks),
            self.found(path) matches Some(meta) && meta.is_dir() ==> world::listed_paths(
                (self.world.listing)(path),
            ) == self.contents(path),
    {
        if let Some(items) = (self.world.listing)(path) {
            entries_are_readable(items);
        }
    }

    proof fn path_is_counted(
        self,
        path: PathView,
        from: Measured,
        counted: Seq<PathView>,
        fuel: nat,
    ) -> (more: Seq<PathView>)
        requires
            self.is_record(counted, from.seen),
        ensures
            self.with_path(path, from, fuel) matches Some(to) ==> {
                let all = counted + more;
                &&& self.is_record(all, to.seen)
                &&& to.total == from.total + self.weight(more)
                &&& self.has_counted(all, path)
                &&& more.len() > 0 ==> more[0] == path
                &&& forall|i: int|
                    #![trigger all[i]]
                    counted.len() <= i < all.len() ==> self.has_filled(all, i)
                &&& forall|i: int|
                    #![trigger all[i]]
                    counted.len() < i < all.len() ==> self.lies_within(all, i)
                &&& forall|one: PathView|
                    self.found(one) is Some && self.mark(one) is None
                        ==> #[trigger] tour_laws::occurrences(more, one) == self.held(more, one)
                        + if path == one {
                        1nat
                    } else {
                        0nat
                    }
            },
        decreases fuel, 0nat, 0nat,
    {
        let empty = Seq::<PathView>::empty();
        self.contents_are_entries(path);
        assert(counted + empty =~= counted);
        if fuel == 0 {
            return empty;
        }
        match self.found(path) {
            None => empty,
            Some(meta) => {
                if metadata::is_counted(from.seen, meta) {
                    let key = meta.key()->0;
                    assert(from.seen.contains(key));
                    let j = choose|j: int|
                        0 <= j < counted.len() && self.mark(#[trigger] counted[j]) == Some(key);
                    assert(self.mark(counted[j]) == self.mark(path));
                    empty
                } else {
                    let one = seq![path];
                    let first = counted.push(path);
                    let n = counted.len() as int;
                    self.record_grows(counted, from.seen, path);
                    assert(counted + one =~= first);
                    assert(one.drop_last() =~= empty);
                    assert(self.weight(one.drop_last()) == 0);
                    assert(first[n] == path);
                    assert(first.contains(path));
                    assert forall|p: PathView|
                        self.held(one, p) == tour_laws::occurrences(self.contents(path), p) && (
                        #[trigger] tour_laws::occurrences(one, p)) == if path == p {
                            1nat
                        } else {
                            0nat
                        } by {
                        assert(self.held(one.drop_last(), p) == 0);
                        assert(tour_laws::occurrences(one.drop_last(), p) == 0);
                    }
                    if !meta.is_dir() {
                        assert(self.contents(path) =~= empty);
                        one
                    } else {
                        let opened = from.answered().counted(meta).answered();
                        let list = self.contents(path);
                        let rest = self.paths_are_counted(list, opened, first, (fuel - 1) as nat);
                        let more = one + rest;
                        let all = counted + more;
                        assert(all =~= first + rest);
                        if let Some(to) = self.with_paths(list, opened, (fuel - 1) as nat) {
                            self.weights_join(one, rest);
                            assert(all[n] == path);
                            assert(all.contains(path));
                            assert(self.has_filled(all, n)) by {
                                assert forall|k: int| 0 <= k < self.contents(
                                    all[n],
                                ).len() implies self.has_counted(
                                    all,
                                    #[trigger] self.contents(all[n])[k],
                                ) by {
                                    assert(list[k] == self.contents(all[n])[k]);
                                }
                            }
                            assert forall|i: int|
                                #![trigger all[i]]
                                n < i < all.len() implies self.lies_within(all, i) by {
                                if list.contains(all[i]) {
                                    assert(self.contents(all[n]).contains(all[i]));
                                }
                            }
                            assert forall|p: PathView|
                                self.found(p) is Some && self.mark(p)
                                    is None implies #[trigger] tour_laws::occurrences(more, p)
                                == self.held(more, p) + if path == p {
                                1nat
                            } else {
                                0nat
                            } by {
                                tour_laws::occurrences_add(one, rest, p);
                                self.held_joins(one, rest, p);
                                assert(tour_laws::occurrences(rest, p) == self.held(rest, p)
                                    + tour_laws::occurrences(list, p));
                                assert(tour_laws::occurrences(one, p) == if path == p {
                                    1nat
                                } else {
                                    0nat
                                });
                            }
                        }
                        more
                    }
                }
            },
        }
    }

    proof fn paths_are_counted(
        self,
        list: Seq<PathView>,
        from: Measured,
        counted: Seq<PathView>,
        fuel: nat,
    ) -> (more: Seq<PathView>)
        requires
            self.is_record(counted, from.seen),
        ensures
            self.with_paths(list, from, fuel) matches Some(to) ==> {
                let all = counted + more;
                &&& self.is_record(all, to.seen)
                &&& to.total == from.total + self.weight(more)
                &&& forall|i: int|
                    0 <= i < list.len() ==> self.has_counted(all, #[trigger] list[i])
                &&& forall|i: int|
                    #![trigger all[i]]
                    counted.len() <= i < all.len() ==> self.has_filled(all, i)
                &&& forall|i: int|
                    #![trigger all[i]]
                    counted.len() <= i < all.len() ==> list.contains(all[i]) || self.lies_within(
                        all,
                        i,
                    )
                &&& forall|one: PathView|
                    self.found(one) is Some && self.mark(one) is None
                        ==> #[trigger] tour_laws::occurrences(more, one) == self.held(more, one)
                        + tour_laws::occurrences(list, one)
            },
        decreases fuel, 1nat, list.len(),
    {
        let empty = Seq::<PathView>::empty();
        assert(counted + empty =~= counted);
        if list.len() == 0 {
            return empty;
        }
        let later = list.drop_first();
        let front = self.path_is_counted(list[0], from, counted, fuel);
        if let Some(after) = self.with_path(list[0], from, fuel) {
            let half = counted + front;
            let back = self.paths_are_counted(later, after, half, fuel);
            let more = front + back;
            let all = counted + more;
            assert(all =~= half + back);
            if let Some(to) = self.with_paths(later, after, fuel) {
                self.weights_join(front, back);
                self.counted_stays(half, all, list[0]);
                assert forall|i: int| 0 <= i < list.len() implies self.has_counted(
                    all,
                    #[trigger] list[i],
                ) by {
                    if i > 0 {
                        assert(later[i - 1] == list[i]);
                    }
                }
                assert forall|i: int|
                    #![trigger all[i]]
                    counted.len() <= i < all.len() implies self.has_filled(all, i) && (
                list.contains(all[i]) || self.lies_within(all, i)) by {
                    if i < half.len() {
                        assert(half[i] == all[i]);
                        self.filled_stays(half, all, i);
                        if i == counted.len() {
                            assert(front[0] == list[0]);
                            assert(all[i] == list[0]);
                        } else {
                            assert(self.lies_within(half, i));
                            let j = choose|j: int|
                                0 <= j < i && self.contents(#[trigger] half[j]).contains(half[i]);
                            assert(all[j] == half[j]);
                        }
                    } else if later.contains(all[i]) {
                        let k = choose|k: int| 0 <= k < later.len() && later[k] == all[i];
                        assert(list[k + 1] == all[i]);
                    }
                }
                assert forall|p: PathView|
                    self.found(p) is Some && self.mark(p)
                        is None implies #[trigger] tour_laws::occurrences(more, p) == self.held(
                    more,
                    p,
                ) + tour_laws::occurrences(list, p) by {
                    tour_laws::occurrences_add(front, back, p);
                    self.held_joins(front, back, p);
                    assert(list =~= seq![list[0]] + later);
                    tour_laws::occurrences_add(seq![list[0]], later, p);
                    assert(seq![list[0]].drop_last() =~= empty);
                    assert(tour_laws::occurrences(seq![list[0]].drop_last(), p) == 0);
                    assert(tour_laws::occurrences(front, p) == self.held(front, p) + if list[0] == p {
                        1nat
                    } else {
                        0nat
                    });
                    assert(tour_laws::occurrences(back, p) == self.held(back, p)
                        + tour_laws::occurrences(later, p));
                }
            }
            more
        } else {
            empty
        }
    }

    /// A measurement adds up the sizes of everything that is there: the path itself and, in every
    /// directory that counts, each entry that could be read. What can be told apart counts once,
    /// under whatever paths it is found, and what cannot as often as it is found. Nothing else counts.
    /// The result lists what counts.
    pub proof fn measurement_counts_everything_once(self, path: PathView, fuel: nat) -> (counted: Seq<
        PathView,
    >)
        requires
            self.size_of(path, fuel) is Some,
        ensures
            self.size_of(path, fuel) == Some(self.weight(counted)),
            self.has_counted(counted, path),
            counted.len() > 0 ==> counted[0] == path,
            forall|i: int|
                0 <= i < counted.len() ==> self.has_filled(counted, i) && self.found(
                    #[trigger] counted[i],
                ) is Some,
            forall|i: int|
                #![trigger counted[i]]
                0 < i < counted.len() ==> self.lies_within(counted, i),
            forall|i: int, j: int|
                #![trigger counted[i], counted[j]]
                0 <= i < j < counted.len() && self.mark(counted[i]) is Some ==> self.mark(
                    counted[i],
                ) != self.mark(counted[j]),
            forall|one: PathView|
                self.found(one) is Some && self.mark(one) is None
                    ==> #[trigger] tour_laws::occurrences(counted, one) == self.held(counted, one)
                    + if path == one {
                    1nat
                } else {
                    0nat
                },
    {
        let from = Measured::fresh();
        let empty = Seq::<PathView>::empty();
        assert(self.is_record(empty, from.seen));
        let counted = self.path_is_counted(path, from, empty, fuel);
        assert(empty + counted =~= counted);
        assert forall|i: int| 0 <= i < counted.len() implies self.has_filled(counted, i)
            && self.found(#[trigger] counted[i]) is Some by {
            assert((empty + counted)[i] == counted[i]);
        }
        counted
    }
}

impl MeasureView {
    /// What an answer does to a measurement. What is there and was not counted before adds its size,
    /// and a directory is then gone into; a sum that does not fit a number ends the measurement. What
    /// is in a directory comes before what was pending.
    pub proof fn answers_add_up(
        self,
        path: PathView,
        lookup: Lookup,
        listing: Option<Seq<ItemView>>,
    )
        ensures
            ({
                let at = MeasureView { stage: MeasureStage::Lookup(path), ..self };
                let next = at.on_lookup(lookup);
                match lookup.effective(self.follow_symlinks) {
                    None => next == self.next(),
                    Some(meta) => if meta.key() is Some && self.seen.contains(meta.key()->0) {
                        next == self.next()
                    } else if self.total + meta.size() > u64::MAX {
                        next.stage is Overflow
                    } else {
                        &&& next.total == self.total + meta.size()
                        &&& next.seen == (match meta.key() {
                            Some(key) => self.seen.insert(key),
                            None => self.seen,
                        })
                        &&& meta.is_dir() ==> next.stage == MeasureStage::Listing(path)
                            && next.pending == self.pending
                        &&& !meta.is_dir() ==> next == (MeasureView {
                            total: next.total,
                            seen: next.seen,
                            ..self
                        }).next()
                    },
                }
            }),
            ({
                let at = MeasureView { stage: MeasureStage::Listing(path), ..self };
                let items = match listing {
                    Some(items) => items,
                    None => Seq::empty(),
                };
                at.on_listing(listing) == (MeasureView {
                    pending: items.filter_map(|item: ItemView| readable(item)) + self.pending,
                    ..self
                }).next()
            }),
            self.pending.len() == 0 ==> self.next() == (MeasureView {
                stage: MeasureStage::Done,
                ..self
            }),
            self.pending.len() > 0 ==> self.next() == (MeasureView {
                pending: self.pending.skip(1),
                stage: MeasureStage::Lookup(self.pending[0]),
                ..self
            }),
    {
        let items = match listing {
            Some(items) => items,
            None => Seq::empty(),
        };
        let none = Seq::<ItemView>::empty();
        entries_are_readable(items);
        assert(none.filter_map(|item: ItemView| readable(item)) =~= Seq::empty());
        assert(self.pending.drop_first() =~= self.pending.skip(1));
    }
}

} // verus!
