//! How the sums of different scans and of measurements stand to each other.

use crate::control::ScanControl;
use crate::measure::{MeasureEnv, Measured};
use crate::metadata;
use crate::paths::PathView;
use crate::rules;
use crate::rules::RuleView;
use crate::scan_laws;
use crate::scan_model;
use crate::scan_model::{
    EntryPlan, Finding, FrameView, IgnoredMode, JobView, NodeView, ScanEnv, ScanFlags, Tally,
};
use crate::world;
use crate::world::{ItemView, World};
use vstd::prelude::*;

verus! {

/// Whether an item of a directory whose kind cannot be had cannot be looked up either.
pub open spec fn is_plain_item(world: World, item: ItemView) -> bool {
    item matches ItemView::Entry { path, kind } ==> (kind is Some || (world.lookup)(path).link is None)
}

/// Whether that holds of all items of a list.
pub open spec fn are_plain_items(world: World, items: Seq<ItemView>) -> bool {
    forall|i: int| 0 <= i < items.len() ==> is_plain_item(world, #[trigger] items[i])
}

/// Whether the kind of everything that can be looked up can be had too when the directory is read
/// that it lies in.
pub open spec fn kinds_are_known(world: World) -> bool {
    forall|path: PathView|
        (#[trigger] (world.listing)(path)) matches Some(items) ==> are_plain_items(world, items)
}

/// Whether a scan with these switches leaves nothing out.
pub open spec fn leaves_nothing_out(flags: ScanFlags) -> bool {
    !flags.ignore_hidden && (flags.respect_gitignore ==> flags.ignored_mode
        == IgnoredMode::Summarize)
}

proof fn entry_paths_from_front(items: Seq<ItemView>)
    requires
        items.len() > 0,
    ensures
        world::entry_paths(items) == match items[0] {
            ItemView::Unreadable => world::entry_paths(items.drop_first()),
            ItemView::Entry { path, .. } => seq![path] + world::entry_paths(items.drop_first()),
        },
    decreases items.len(),
{
    let shorter = items.drop_last();
    let rest = items.drop_first();
    if items.len() == 1 {
        assert(shorter =~= Seq::<ItemView>::empty());
        assert(rest =~= Seq::<ItemView>::empty());
        if let ItemView::Entry { path, .. } = items[0] {
            assert(Seq::<PathView>::empty().push(path) =~= seq![path] + Seq::<PathView>::empty());
        }
    } else {
        entry_paths_from_front(shorter);
        assert(shorter.drop_first() =~= rest.drop_last());
        assert(rest.last() == items.last());
        assert(shorter[0] == items[0]);
        if let ItemView::Entry { path: first, .. } = items[0] {
            if let ItemView::Entry { path: last, .. } = items.last() {
                assert((seq![first] + world::entry_paths(rest.drop_last())).push(last) =~= seq![first]
                    + world::entry_paths(rest.drop_last()).push(last));
            }
        }
    }
}

impl ScanEnv {
    pub open spec fn measures(self) -> MeasureEnv {
        MeasureEnv { world: self.world, follow_symlinks: self.flags.follow_symlinks }
    }

    /// Whether a path counts: there is something under it that has not been counted.
    pub open spec fn counts(self, path: PathView, seen: Set<(u64, u64)>) -> bool {
        match (self.world.lookup)(path).effective(self.flags.follow_symlinks) {
            Some(meta) => !metadata::is_counted(seen, meta),
            None => false,
        }
    }

    /// A scan that leaves nothing out finds at and below a path what a measurement finds there.
    proof fn job_measures(
        self,
        job: JobView,
        rules: Seq<RuleView>,
        tally: Tally,
        from: Measured,
        fuel: nat,
    )
        requires
            leaves_nothing_out(self.flags),
            kinds_are_known(self.world),
            from.seen == tally.seen,
        ensures
            self.scan_job(job, rules, tally, fuel) matches Some((finding, after)) ==> {
                &&& self.measures().with_path(job.path, from, fuel + 1) matches Some(to)
                &&& to.seen == after.seen
                &&& from.total <= to.total
                &&& scan_laws::finding_size(finding) == scan_laws::cap((to.total - from.total) as nat)
                &&& finding is Nothing <==> !self.counts(job.path, tally.seen)
                &&& finding is Size ==> job.inner
                &&& finding is Node ==> !job.inner
                &&& finding matches Finding::Node(node) ==> node.path == job.path
                &&& finding is Nothing ==> to.total == from.total
            },
        decreases fuel, 1nat, 0nat,
    {
        if fuel > 0 {
            if let Some(meta) = (self.world.lookup)(job.path).effective(self.flags.follow_symlinks) {
                let t = tally.answered(2).visited().answered(1);
                if !metadata::is_counted(t.seen, meta) && meta.is_dir() {
                    let extra: nat = if job.reads_rules(self.flags) || job.summed() {
                        1
                    } else {
                        0
                    };
                    let inside = if job.reads_rules(self.flags) {
                        rules::rules_inside(
                            rules,
                            job.path.bytes,
                            (self.world.ignore_file)(job.path),
                        )
                    } else {
                        rules
                    };
                    let items = match (self.world.listing)(job.path) {
                        Some(items) => items,
                        None => Seq::empty(),
                    };
                    let last: nat = if (self.world.listing)(job.path) is Some {
                        2
                    } else {
                        1
                    };
                    let frame = FrameView {
                        job,
                        own: meta.size(),
                        items,
                        children: Seq::empty(),
                        total: 0,
                        failed: false,
                        outer: rules.len(),
                    };
                    let opened = from.answered().counted(meta).answered();
                    assert(are_plain_items(self.world, items));
                    self.filled_measures(
                        frame,
                        inside,
                        t.counted(meta).answered(extra).answered(last),
                        opened,
                        fuel,
                    );
                    assert(world::entry_paths(items) == world::listed_paths(
                        (self.world.listing)(job.path),
                    ));
                }
            }
        }
    }

    proof fn filled_measures(
        self,
        frame: FrameView,
        rules: Seq<RuleView>,
        tally: Tally,
        from: Measured,
        fuel: nat,
    )
        requires
            fuel > 0,
            leaves_nothing_out(self.flags),
            kinds_are_known(self.world),
            are_plain_items(self.world, frame.items),
            from.seen == tally.seen,
        ensures
            self.filled(frame, rules, tally, fuel) matches Some((finding, after)) ==> {
                &&& self.measures().with_paths(
                    world::entry_paths(frame.items),
                    from,
                    fuel,
                ) matches Some(to)
                &&& to.seen == after.seen
                &&& from.total <= to.total
                &&& scan_laws::finding_size(finding) == scan_laws::cap(
                    (scan_laws::size_so_far(frame) + to.total - from.total) as nat,
                )
                &&& finding is Size <==> frame.job.inner
                &&& finding is Node <==> !frame.job.inner
                &&& finding matches Finding::Node(node) ==> node.path == frame.job.path
            },
        decreases fuel, 0nat, frame.items.len(),
    {
        if frame.items.len() > 0 {
            entry_paths_from_front(frame.items);
            assert(are_plain_items(self.world, frame.rest().items));
            match frame.job.plan(self.flags, frame.items[0], rules) {
                EntryPlan::Skip => {
                    if let ItemView::Entry { path, .. } = frame.items[0] {
                        let list = world::entry_paths(frame.items);
                        assert(is_plain_item(self.world, frame.items[0]));
                        assert(list[0] == path);
                        assert(list.drop_first() =~= world::entry_paths(frame.rest().items));
                        assert(self.measures().with_path(path, from, fuel) == Some(
                            from.answered(),
                        ));
                        self.filled_measures(
                            frame.rest(),
                            rules,
                            tally.answered(1),
                            from.answered(),
                            fuel,
                        );
                    } else {
                        self.filled_measures(frame.rest(), rules, tally.answered(1), from, fuel);
                    }
                },
                EntryPlan::TooDeep => {},
                EntryPlan::Visit(job) => {
                    let t = tally.answered(2).admitted();
                    let lower = (fuel - 1) as nat;
                    let list = world::entry_paths(frame.items);
                    assert(list[0] == job.path);
                    assert(list.drop_first() =~= world::entry_paths(frame.rest().items));
                    self.job_measures(job, rules, t, from, lower);
                    if let Some((finding, after)) = self.scan_job(job, rules, t, lower) {
                        let to = self.measures().with_path(job.path, from, fuel)->0;
                        let next = frame.rest().absorb(finding);
                        self.filled_measures(next, rules, after, to, fuel);
                        if let Finding::Node(node) = finding {
                            assert(next.children.drop_last() =~= frame.children);
                        }
                    }
                },
            }
        }
    }
}

/// What a measurement gives for a path is the size of the root that a plain scan gives for it, up to
/// the largest number, and zero where the scan gives no root.
pub proof fn measuring_is_scanning(world: World, flags: ScanFlags, path: PathView, fuel: nat)
    requires
        leaves_nothing_out(flags),
        kinds_are_known(world),
        scan_laws::whole_scan(world, flags, seq![path], ScanControl::fresh(), fuel) is Some,
    ensures
        ({
            let (nodes, _) = scan_laws::whole_scan(
                world,
                flags,
                seq![path],
                ScanControl::fresh(),
                fuel,
            )->0;
            let env = MeasureEnv { world, follow_symlinks: flags.follow_symlinks };
            &&& env.size_of(path, fuel + 1) matches Some(size)
            &&& nodes.len() <= 1
            &&& nodes.len() == 0 ==> size == 0
            &&& nodes.len() == 1 ==> nodes[0].path == path && nodes[0].size == scan_laws::cap(size)
        }),
{
    let env = ScanEnv { world, flags };
    let t = Tally { seen: Set::empty(), control: ScanControl::fresh(), answers: 0 };
    let job = JobView::root(path);
    let begun = t.answered(1).admitted();
    env.job_measures(job, Seq::empty(), begun, Measured::fresh(), fuel);
    let (finding, after) = env.scan_job(job, Seq::empty(), begun, fuel)->0;
    let found = scan_model::with_node(Seq::empty(), finding);
    assert(seq![path].drop_first() =~= Seq::<PathView>::empty());
    assert(env.scan_roots(Seq::empty(), found, after, fuel) == Some((found, after)));
}

/// Whether two lists hold nodes for the same paths and of the same sizes.
pub open spec fn weigh_the_same(one: Seq<NodeView>, other: Seq<NodeView>) -> bool {
    &&& one.len() == other.len()
    &&& forall|i: int|
        #![trigger one[i]]
        #![trigger other[i]]
        0 <= i < one.len() ==> one[i].path == other[i].path && one[i].size == other[i].size
}

proof fn same_weights_add_up(one: Seq<NodeView>, other: Seq<NodeView>)
    requires
        weigh_the_same(one, other),
    ensures
        scan_model::sizes(one) == scan_model::sizes(other),
    decreases one.len(),
{
    if one.len() > 0 {
        assert(one.last().size == other.last().size) by {
            assert(one[one.len() - 1].size == other[one.len() - 1].size);
        }
        assert forall|i: int| 0 <= i < one.drop_last().len() implies one.drop_last()[i].path
            == other.drop_last()[i].path && one.drop_last()[i].size == other.drop_last()[i].size by {
            assert(one[i].path == other[i].path);
        }
        same_weights_add_up(one.drop_last(), other.drop_last());
    }
}

proof fn roots_weigh_the_same(
    one: ScanEnv,
    other: ScanEnv,
    directories: Seq<PathView>,
    found: Seq<NodeView>,
    found_too: Seq<NodeView>,
    tally: Tally,
    tally_too: Tally,
    fuel: nat,
)
    requires
        one.world == other.world,
        one.flags.follow_symlinks == other.flags.follow_symlinks,
        leaves_nothing_out(one.flags),
        leaves_nothing_out(other.flags),
        kinds_are_known(one.world),
        tally.seen == tally_too.seen,
        weigh_the_same(found, found_too),
    ensures
        match (
            one.scan_roots(directories, found, tally, fuel),
            other.scan_roots(directories, found_too, tally_too, fuel),
        ) {
            (Some((nodes, _)), Some((nodes_too, _))) => weigh_the_same(nodes, nodes_too),
            _ => true,
        },
    decreases directories.len(),
{
    if directories.len() > 0 {
        let job = JobView::root(directories[0]);
        let a = tally.answered(1).admitted();
        let b = tally_too.answered(1).admitted();
        let from = Measured { total: 0, seen: tally.seen, answers: 0 };
        one.job_measures(job, Seq::empty(), a, from, fuel);
        other.job_measures(job, Seq::empty(), b, from, fuel);
        match (
            one.scan_job(job, Seq::empty(), a, fuel),
            other.scan_job(job, Seq::empty(), b, fuel),
        ) {
            (Some((f, t)), Some((g, u))) => {
                assert(one.measures() == other.measures());
                let next = scan_model::with_node(found, f);
                let next_too = scan_model::with_node(found_too, g);
                assert(weigh_the_same(next, next_too));
                roots_weigh_the_same(
                    one,
                    other,
                    directories.drop_first(),
                    next,
                    next_too,
                    t,
                    u,
                    fuel,
                );
            },
            _ => {},
        }
    }
}

/// A scan that summarizes what the ignore files exclude, and one that does not look at ignore files,
/// give roots of the same sizes: summarizing hides what lies inside, but drops no bytes.
pub proof fn summarizing_drops_nothing(
    world: World,
    flags: ScanFlags,
    directories: Seq<PathView>,
    fuel: nat,
)
    requires
        !flags.ignore_hidden,
        kinds_are_known(world),
    ensures
        ({
            let summarizing = ScanFlags {
                respect_gitignore: true,
                ignored_mode: IgnoredMode::Summarize,
                ..flags
            };
            let plain = ScanFlags { respect_gitignore: false, ..flags };
            match (
                scan_laws::whole_scan(world, summarizing, directories, ScanControl::fresh(), fuel),
                scan_laws::whole_scan(world, plain, directories, ScanControl::fresh(), fuel),
            ) {
                (Some((nodes, _)), Some((nodes_too, _))) => weigh_the_same(nodes, nodes_too)
                    && scan_model::sizes(nodes) == scan_model::sizes(nodes_too),
                _ => true,
            }
        }),
{
    let summarizing = ScanFlags {
        respect_gitignore: true,
        ignored_mode: IgnoredMode::Summarize,
        ..flags
    };
    let plain = ScanFlags { respect_gitignore: false, ..flags };
    let t = Tally { seen: Set::empty(), control: ScanControl::fresh(), answers: 0 };
    roots_weigh_the_same(
        ScanEnv { world, flags: summarizing },
        ScanEnv { world, flags: plain },
        directories,
        Seq::empty(),
        Seq::empty(),
        t,
        t,
        fuel,
    );
    if let Some((nodes, _)) = scan_laws::whole_scan(
        world,
        summarizing,
        directories,
        ScanControl::fresh(),
        fuel,
    ) {
        if let Some((nodes_too, _)) = scan_laws::whole_scan(
            world,
            plain,
            directories,
            ScanControl::fresh(),
            fuel,
        ) {
            same_weights_add_up(nodes, nodes_too);
        }
    }
}

impl MeasureEnv {
    /// What the thing under a path is told apart by, if there is one and it can be.
    pub open spec fn key(self, path: PathView) -> Option<(u64, u64)> {
        match (self.world.lookup)(path).effective(self.follow_symlinks) {
            Some(meta) => meta.key(),
            None => None,
        }
    }

    pub open spec fn entries(self, path: PathView) -> Seq<PathView> {
        world::listed_paths((self.world.listing)(path))
    }

    /// The size of a path that cannot be told apart, with what is in it that cannot be told apart
    /// either, down to the given number of levels. Such things are counted each time that they are
    /// come to.
    pub open spec fn loose(self, path: PathView, levels: nat) -> nat
        decreases levels, 0nat, 0nat,
    {
        match (self.world.lookup)(path).effective(self.follow_symlinks) {
            Some(meta) if levels > 0 && meta.key() is None => if meta.is_dir() {
                meta.size() as nat + self.loose_among(self.entries(path), (levels - 1) as nat)
            } else {
                meta.size() as nat
            },
            _ => 0,
        }
    }

    pub open spec fn loose_among(self, list: Seq<PathView>, levels: nat) -> nat
        decreases levels, 1nat, list.len(),
    {
        if list.len() == 0 {
            0
        } else {
            self.loose(list[0], levels) + self.loose_among(list.drop_first(), levels)
        }
    }

    /// The keys that are come to at a path: its own, or if it cannot be told apart those that are come
    /// to in it.
    pub open spec fn reach(self, path: PathView, levels: nat) -> Set<(u64, u64)>
        decreases levels, 0nat, 0nat,
    {
        match (self.world.lookup)(path).effective(self.follow_symlinks) {
            None => Set::empty(),
            Some(meta) => match meta.key() {
                Some(key) => Set::empty().insert(key),
                None => if levels > 0 && meta.is_dir() {
                    self.reach_among(self.entries(path), (levels - 1) as nat)
                } else {
                    Set::empty()
                },
            },
        }
    }

    pub open spec fn reach_among(self, list: Seq<PathView>, levels: nat) -> Set<(u64, u64)>
        decreases levels, 1nat, list.len(),
    {
        if list.len() == 0 {
            Set::empty()
        } else {
            self.reach(list[0], levels).union(self.reach_among(list.drop_first(), levels))
        }
    }

    /// What is under a path: whether it is a directory, its size with everything in it that cannot be
    /// told apart, and the keys that are come to in it.
    pub open spec fn thing(self, path: PathView, levels: nat) -> (bool, nat, Set<(u64, u64)>) {
        let meta = (self.world.lookup)(path).effective(self.follow_symlinks)->0;
        if meta.is_dir() {
            (
                true,
                meta.size() as nat + self.loose_among(self.entries(path), levels),
                self.reach_among(self.entries(path), levels),
            )
        } else {
            (false, meta.size() as nat, Set::empty())
        }
    }

    /// Whether there is one thing behind each key, under whatever path it is found.
    pub open spec fn one_thing_per_key(self, levels: nat) -> bool {
        forall|one: PathView, other: PathView|
            #![trigger self.key(one), self.key(other)]
            self.key(one) is Some && self.key(one) == self.key(other) ==> self.thing(one, levels)
                == self.thing(other, levels)
    }

    /// A path under which what a key stands for is found.
    pub open spec fn holder(self, key: (u64, u64)) -> PathView {
        choose|path: PathView| #[trigger] self.key(path) == Some(key)
    }

    /// What is behind each key.
    pub open spec fn catalog(self, levels: nat) -> Catalog {
        Catalog {
            is_dir: |key: (u64, u64)| self.thing(self.holder(key), levels).0,
            weight_of: |key: (u64, u64)| self.thing(self.holder(key), levels).1,
            inside: |key: (u64, u64)| self.thing(self.holder(key), levels).2,
        }
    }

    proof fn catalog_holds(self, path: PathView, levels: nat)
        requires
            self.one_thing_per_key(levels),
        ensures
            self.key(path) matches Some(key) ==> {
                let catalog = self.catalog(levels);
                self.thing(path, levels) == (
                    (catalog.is_dir)(key),
                    (catalog.weight_of)(key),
                    (catalog.inside)(key),
                )
            },
    {
        if let Some(key) = self.key(path) {
            let other = self.holder(key);
            assert(self.key(other) == Some(key));
        }
    }
}

/// What is behind the keys by which things are told apart.
pub struct Catalog {
    pub is_dir: spec_fn((u64, u64)) -> bool,
    /// The size of a thing with everything in it that cannot be told apart.
    pub weight_of: spec_fn((u64, u64)) -> nat,
    /// The keys that are come to in a directory.
    pub inside: spec_fn((u64, u64)) -> Set<(u64, u64)>,
}

impl Catalog {
    /// The weights of what is behind the keys of a list.
    pub open spec fn weight(self, list: Seq<(u64, u64)>) -> nat
        decreases list.len(),
    {
        if list.len() == 0 {
            0
        } else {
            self.weight(list.drop_last()) + (self.weight_of)(list.last())
        }
    }

    /// Whether the keys of a list were counted between two moments, each once and nothing else.
    pub open spec fn counted_between(
        self,
        seen: Set<(u64, u64)>,
        after: Set<(u64, u64)>,
        list: Seq<(u64, u64)>,
    ) -> bool {
        &&& list.no_duplicates()
        &&& forall|i: int| 0 <= i < list.len() ==> !seen.contains(#[trigger] list[i])
        &&& forall|k: (u64, u64)| #[trigger]
            after.contains(k) <==> seen.contains(k) || list.contains(k)
    }

    /// Whether of every directory counted between two moments the keys in it were counted too.
    pub open spec fn filled_between(self, seen: Set<(u64, u64)>, after: Set<(u64, u64)>) -> bool {
        forall|k: (u64, u64)| #[trigger]
            after.contains(k) && !seen.contains(k) ==> (self.inside)(k).subset_of(after)
    }

    /// Whether with every key a set of keys holds those in it.
    pub open spec fn is_closed(self, all: Set<(u64, u64)>) -> bool {
        forall|k: (u64, u64)| #[trigger] all.contains(k) ==> (self.inside)(k).subset_of(all)
    }

    proof fn weights_add(self, front: Seq<(u64, u64)>, back: Seq<(u64, u64)>)
        ensures
            self.weight(front + back) == self.weight(front) + self.weight(back),
        decreases back.len(),
    {
        if back.len() == 0 {
            assert(front + back =~= front);
        } else {
            assert((front + back).drop_last() =~= front + back.drop_last());
            self.weights_add(front, back.drop_last());
        }
    }

    proof fn counted_in_turn(
        self,
        seen: Set<(u64, u64)>,
        middle: Set<(u64, u64)>,
        after: Set<(u64, u64)>,
        front: Seq<(u64, u64)>,
        back: Seq<(u64, u64)>,
    )
        requires
            self.counted_between(seen, middle, front),
            self.counted_between(middle, after, back),
        ensures
            self.counted_between(seen, after, front + back),
    {
        let list = front + back;
        assert forall|k: (u64, u64)| list.contains(k) <==> front.contains(k) || back.contains(k) by {
            if front.contains(k) {
                let i = choose|i: int| 0 <= i < front.len() && front[i] == k;
                assert(list[i] == k);
            }
            if back.contains(k) {
                let i = choose|i: int| 0 <= i < back.len() && back[i] == k;
                assert(list[front.len() + i] == k);
            }
        }
        assert forall|i: int, j: int| 0 <= i < list.len() && 0 <= j < list.len() && i != j implies list[i]
            != list[j] by {
            if i < front.len() && j >= front.len() {
                assert(front.contains(list[i]));
                assert(middle.contains(list[i]));
                assert(!middle.contains(back[j - front.len()]));
            }
            if j < front.len() && i >= front.len() {
                assert(front.contains(list[j]));
                assert(middle.contains(list[j]));
                assert(!middle.contains(back[i - front.len()]));
            }
        }
        assert forall|i: int| 0 <= i < list.len() implies !seen.contains(#[trigger] list[i]) by {
            if i >= front.len() {
                assert(!middle.contains(back[i - front.len()]));
                assert(seen.contains(list[i]) ==> middle.contains(list[i]));
            }
        }
    }

    proof fn weight_without(self, list: Seq<(u64, u64)>, at: int)
        requires
            0 <= at < list.len(),
        ensures
            self.weight(list) == self.weight(list.remove(at)) + (self.weight_of)(list[at]),
    {
        let front = list.take(at);
        let back = list.skip(at + 1);
        assert(list.remove(at) =~= front + back);
        assert(list =~= front.push(list[at]) + back);
        assert(front.push(list[at]).drop_last() =~= front);
        self.weights_add(front, back);
        self.weights_add(front.push(list[at]), back);
    }

    /// A list without repetitions weighs no more than one that holds all that it holds.
    proof fn parts_weigh_no_more(self, part: Seq<(u64, u64)>, whole: Seq<(u64, u64)>)
        requires
            part.no_duplicates(),
            forall|i: int| 0 <= i < part.len() ==> whole.contains(#[trigger] part[i]),
        ensures
            self.weight(part) <= self.weight(whole),
        decreases part.len(),
    {
        if part.len() > 0 {
            let key = part.last();
            assert(whole.contains(part[part.len() - 1]));
            let at = choose|at: int| 0 <= at < whole.len() && whole[at] == key;
            let rest = part.drop_last();
            let others = whole.remove(at);
            self.weight_without(whole, at);
            assert forall|i: int| 0 <= i < rest.len() implies others.contains(#[trigger] rest[i]) by {
                assert(part[i] != part[part.len() - 1]);
                assert(whole.contains(part[i]));
                let j = choose|j: int| 0 <= j < whole.len() && whole[j] == part[i];
                if j < at {
                    assert(others[j] == rest[i]);
                } else {
                    assert(others[j - 1] == rest[i]);
                }
            }
            self.parts_weigh_no_more(rest, others);
        }
    }
}

proof fn one_key_counted(catalog: Catalog, seen: Set<(u64, u64)>, key: (u64, u64))
    requires
        !seen.contains(key),
    ensures
        catalog.counted_between(seen, seen.insert(key), seq![key]),
        catalog.weight(seq![key]) == (catalog.weight_of)(key),
{
    assert(seq![key][0] == key);
    assert(seq![key].drop_last() =~= Seq::<(u64, u64)>::empty());
    assert(catalog.weight(seq![key].drop_last()) == 0);
}

impl MeasureEnv {
    /// A measurement adds up what it counts: what cannot be told apart, and what is behind the keys
    /// that it counts. It counts all keys that it comes to.
    proof fn path_weighs(
        self,
        levels: nat,
        path: PathView,
        from: Measured,
        fuel: nat,
        deep: nat,
    ) -> (list: Seq<(u64, u64)>)
        requires
            self.one_thing_per_key(levels),
            fuel <= deep,
            fuel <= levels,
        ensures
            self.with_path(path, from, fuel) matches Some(to) ==> {
                let catalog = self.catalog(levels);
                &&& catalog.counted_between(from.seen, to.seen, list)
                &&& to.total == from.total + self.loose(path, deep) + catalog.weight(list)
                &&& catalog.filled_between(from.seen, to.seen)
                &&& self.reach(path, deep).subset_of(to.seen)
            },
        decreases fuel, 0nat, 0nat,
    {
        let catalog = self.catalog(levels);
        let nothing = Seq::<(u64, u64)>::empty();
        if fuel == 0 {
            return nothing;
        }
        let lower = (fuel - 1) as nat;
        let inside = self.entries(path);
        match (self.world.lookup)(path).effective(self.follow_symlinks) {
            None => nothing,
            Some(meta) => {
                let opened = from.answered().counted(meta).answered();
                match meta.key() {
                    None => {
                        if !meta.is_dir() {
                            nothing
                        } else {
                            self.paths_weigh(levels, inside, opened, lower, (deep - 1) as nat)
                        }
                    },
                    Some(key) => {
                        if metadata::is_counted(from.seen, meta) {
                            nothing
                        } else {
                            one_key_counted(catalog, from.seen, key);
                            self.catalog_holds(path, levels);
                            if !meta.is_dir() {
                                seq![key]
                            } else {
                                let rest = self.paths_weigh(levels, inside, opened, lower, levels);
                                if let Some(to) = self.with_paths(inside, opened, lower) {
                                    catalog.counted_in_turn(
                                        from.seen,
                                        opened.seen,
                                        to.seen,
                                        seq![key],
                                        rest,
                                    );
                                    catalog.weights_add(seq![key], rest);
                                    assert forall|k: (u64, u64)| #[trigger]
                                        to.seen.contains(k) && !from.seen.contains(k) implies (
                                    catalog.inside)(k).subset_of(to.seen) by {
                                        if k != key {
                                            assert(!opened.seen.contains(k));
                                        }
                                    }
                                }
                                seq![key] + rest
                            }
                        }
                    },
                }
            },
        }
    }

    proof fn paths_weigh(
        self,
        levels: nat,
        paths: Seq<PathView>,
        from: Measured,
        fuel: nat,
        deep: nat,
    ) -> (list: Seq<(u64, u64)>)
        requires
            self.one_thing_per_key(levels),
            fuel <= deep,
            fuel <= levels,
        ensures
            self.with_paths(paths, from, fuel) matches Some(to) ==> {
                let catalog = self.catalog(levels);
                &&& catalog.counted_between(from.seen, to.seen, list)
                &&& to.total == from.total + self.loose_among(paths, deep) + catalog.weight(list)
                &&& catalog.filled_between(from.seen, to.seen)
                &&& self.reach_among(paths, deep).subset_of(to.seen)
            },
        decreases fuel, 1nat, paths.len(),
    {
        let catalog = self.catalog(levels);
        let nothing = Seq::<(u64, u64)>::empty();
        if paths.len() == 0 {
            return nothing;
        }
        let front = self.path_weighs(levels, paths[0], from, fuel, deep);
        match self.with_path(paths[0], from, fuel) {
            None => nothing,
            Some(after) => {
                let back = self.paths_weigh(levels, paths.drop_first(), after, fuel, deep);
                if let Some(to) = self.with_paths(paths.drop_first(), after, fuel) {
                    catalog.counted_in_turn(from.seen, after.seen, to.seen, front, back);
                    catalog.weights_add(front, back);
                    assert forall|k: (u64, u64)| after.seen.contains(k) implies to.seen.contains(
                        k,
                    ) by {}
                    assert forall|k: (u64, u64)| #[trigger]
                        to.seen.contains(k) && !from.seen.contains(k) implies (catalog.inside)(
                        k,
                    ).subset_of(to.seen) by {
                        if after.seen.contains(k) {
                            assert((catalog.inside)(k).subset_of(after.seen));
                        }
                    }
                }
                front + back
            },
        }
    }
}

impl ScanEnv {
    /// A scan counts no more than what cannot be told apart where it comes to, and what is behind the
    /// keys that it counts, all of which it can come to.
    proof fn job_weighs(
        self,
        levels: nat,
        all: Set<(u64, u64)>,
        job: JobView,
        rules: Seq<RuleView>,
        tally: Tally,
        fuel: nat,
        deep: nat,
    ) -> (r: (Seq<(u64, u64)>, nat))
        requires
            self.measures().one_thing_per_key(levels),
            self.measures().catalog(levels).is_closed(all),
            self.measures().reach(job.path, deep).subset_of(all),
            fuel <= deep,
            fuel <= levels,
        ensures
            self.scan_job(job, rules, tally, fuel) matches Some((finding, after)) ==> {
                let catalog = self.measures().catalog(levels);
                &&& catalog.counted_between(tally.seen, after.seen, r.0)
                &&& scan_laws::finding_size(finding) == scan_laws::cap(r.1)
                &&& r.1 <= self.measures().loose(job.path, deep) + catalog.weight(r.0)
                &&& forall|i: int| 0 <= i < r.0.len() ==> all.contains(#[trigger] r.0[i])
                &&& finding is Size ==> job.inner
                &&& finding is Node ==> !job.inner
            },
        decreases fuel, 1nat, 0nat,
    {
        let env = self.measures();
        let catalog = env.catalog(levels);
        let nothing = Seq::<(u64, u64)>::empty();
        if fuel == 0 {
            return (nothing, 0);
        }
        let t = tally.answered(2).visited().answered(1);
        match (self.world.lookup)(job.path).effective(self.flags.follow_symlinks) {
            None => (nothing, 0),
            Some(meta) => {
                if metadata::is_counted(t.seen, meta) {
                    return (nothing, 0);
                }
                if let Some(key) = meta.key() {
                    one_key_counted(catalog, tally.seen, key);
                    env.catalog_holds(job.path, levels);
                    assert(env.reach(job.path, deep).contains(key));
                }
                let own = match meta.key() {
                    Some(key) => seq![key],
                    None => nothing,
                };
                if !meta.is_dir() {
                    return (own, meta.size() as nat);
                }
                let extra: nat = if job.reads_rules(self.flags) || job.summed() {
                    1
                } else {
                    0
                };
                let inside = if job.reads_rules(self.flags) {
                    rules::rules_inside(
                        rules,
                        job.path.bytes,
                        (self.world.ignore_file)(job.path),
                    )
                } else {
                    rules
                };
                let items = match (self.world.listing)(job.path) {
                    Some(items) => items,
                    None => Seq::empty(),
                };
                let last: nat = if (self.world.listing)(job.path) is Some {
                    2
                } else {
                    1
                };
                let frame = FrameView {
                    job,
                    own: meta.size(),
                    items,
                    children: Seq::empty(),
                    total: 0,
                    failed: false,
                    outer: rules.len(),
                };
                let opened = t.counted(meta).answered(extra).answered(last);
                let below: nat = if meta.key() is Some {
                    levels
                } else {
                    (deep - 1) as nat
                };
                assert(world::entry_paths(items) == env.entries(job.path));
                let (rest, x) = self.filled_weighs(
                    levels,
                    all,
                    frame,
                    inside,
                    opened,
                    fuel,
                    below,
                );
                if let Some((finding, after)) = self.filled(frame, inside, opened, fuel) {
                    catalog.counted_in_turn(tally.seen, opened.seen, after.seen, own, rest);
                    catalog.weights_add(own, rest);
                }
                (own + rest, meta.size() as nat + x)
            },
        }
    }

    proof fn filled_weighs(
        self,
        levels: nat,
        all: Set<(u64, u64)>,
        frame: FrameView,
        rules: Seq<RuleView>,
        tally: Tally,
        fuel: nat,
        deep: nat,
    ) -> (r: (Seq<(u64, u64)>, nat))
        requires
            self.measures().one_thing_per_key(levels),
            self.measures().catalog(levels).is_closed(all),
            self.measures().reach_among(world::entry_paths(frame.items), deep).subset_of(all),
            fuel <= deep + 1,
            fuel <= levels,
        ensures
            self.filled(frame, rules, tally, fuel) matches Some((finding, after)) ==> {
                let catalog = self.measures().catalog(levels);
                &&& catalog.counted_between(tally.seen, after.seen, r.0)
                &&& scan_laws::finding_size(finding) == scan_laws::cap(
                    scan_laws::size_so_far(frame) + r.1,
                )
                &&& r.1 <= self.measures().loose_among(world::entry_paths(frame.items), deep)
                    + catalog.weight(r.0)
                &&& forall|i: int| 0 <= i < r.0.len() ==> all.contains(#[trigger] r.0[i])
                &&& finding is Size ==> frame.job.inner
                &&& finding is Node ==> !frame.job.inner
            },
        decreases fuel, 0nat, frame.items.len(),
    {
        let env = self.measures();
        let catalog = env.catalog(levels);
        let nothing = Seq::<(u64, u64)>::empty();
        if frame.items.len() == 0 {
            return (nothing, 0);
        }
        let paths = world::entry_paths(frame.items);
        let later = world::entry_paths(frame.rest().items);
        entry_paths_from_front(frame.items);
        if frame.items[0] is Entry {
            assert(paths.drop_first() =~= later);
        }
        assert(env.reach_among(later, deep).subset_of(all));
        assert(env.loose_among(later, deep) <= env.loose_among(paths, deep));
        match frame.job.plan(self.flags, frame.items[0], rules) {
            EntryPlan::Skip => self.filled_weighs(
                levels,
                all,
                frame.rest(),
                rules,
                tally.answered(1),
                fuel,
                deep,
            ),
            EntryPlan::TooDeep => (nothing, 0),
            EntryPlan::Visit(job) => {
                if fuel == 0 {
                    return (nothing, 0);
                }
                let t = tally.answered(2).admitted();
                let lower = (fuel - 1) as nat;
                assert(paths[0] == job.path);
                let (front, x) = self.job_weighs(levels, all, job, rules, t, lower, deep);
                match self.scan_job(job, rules, t, lower) {
                    None => (nothing, 0),
                    Some((finding, after)) => {
                        let next = frame.rest().absorb(finding);
                        let (back, y) = self.filled_weighs(
                            levels,
                            all,
                            next,
                            rules,
                            after,
                            fuel,
                            deep,
                        );
                        if let Some((_, end)) = self.filled(next, rules, after, fuel) {
                            catalog.counted_in_turn(tally.seen, after.seen, end.seen, front, back);
                            catalog.weights_add(front, back);
                            if let Finding::Node(node) = finding {
                                assert(next.children.drop_last() =~= frame.children);
                            }
                        }
                        (front + back, x + y)
                    },
                }
            },
        }
    }

    proof fn roots_weigh(
        self,
        levels: nat,
        all: Set<(u64, u64)>,
        directories: Seq<PathView>,
        roots: Seq<NodeView>,
        tally: Tally,
        fuel: nat,
    ) -> (r: (Seq<(u64, u64)>, nat))
        requires
            self.measures().one_thing_per_key(levels),
            self.measures().catalog(levels).is_closed(all),
            self.measures().reach_among(directories, levels).subset_of(all),
            fuel <= levels,
        ensures
            self.scan_roots(directories, roots, tally, fuel) matches Some((nodes, after)) ==> {
                let catalog = self.measures().catalog(levels);
                &&& catalog.counted_between(tally.seen, after.seen, r.0)
                &&& scan_laws::cap(scan_model::sizes(nodes)) == scan_laws::cap(
                    scan_model::sizes(roots) + r.1,
                )
                &&& r.1 <= self.measures().loose_among(directories, levels) + catalog.weight(r.0)
                &&& forall|i: int| 0 <= i < r.0.len() ==> all.contains(#[trigger] r.0[i])
            },
        decreases directories.len(),
    {
        let env = self.measures();
        let catalog = env.catalog(levels);
        let nothing = Seq::<(u64, u64)>::empty();
        if directories.len() == 0 {
            return (nothing, 0);
        }
        let job = JobView::root(directories[0]);
        let t = tally.answered(1).admitted();
        let (front, x) = self.job_weighs(levels, all, job, Seq::empty(), t, fuel, levels);
        match self.scan_job(job, Seq::empty(), t, fuel) {
            None => (nothing, 0),
            Some((finding, after)) => {
                let next = scan_model::with_node(roots, finding);
                let later = directories.drop_first();
                let (back, y) = self.roots_weigh(levels, all, later, next, after, fuel);
                if let Some((nodes, end)) = self.scan_roots(later, next, after, fuel) {
                    catalog.counted_in_turn(tally.seen, after.seen, end.seen, front, back);
                    catalog.weights_add(front, back);
                    if let Finding::Node(node) = finding {
                        assert(next.drop_last() =~= roots);
                    }
                }
                (front + back, x + y)
            },
        }
    }

    proof fn roots_measure(
        self,
        directories: Seq<PathView>,
        roots: Seq<NodeView>,
        tally: Tally,
        from: Measured,
        fuel: nat,
    )
        requires
            leaves_nothing_out(self.flags),
            kinds_are_known(self.world),
            from.seen == tally.seen,
        ensures
            self.scan_roots(directories, roots, tally, fuel) matches Some((nodes, after)) ==> {
                &&& self.measures().with_paths(directories, from, fuel + 1) matches Some(to)
                &&& from.total <= to.total
                &&& scan_laws::cap(scan_model::sizes(nodes)) == scan_laws::cap(
                    (scan_model::sizes(roots) + to.total - from.total) as nat,
                )
            },
        decreases directories.len(),
    {
        if directories.len() > 0 {
            let job = JobView::root(directories[0]);
            let t = tally.answered(1).admitted();
            self.job_measures(job, Seq::empty(), t, from, fuel);
            if let Some((finding, after)) = self.scan_job(job, Seq::empty(), t, fuel) {
                let to = self.measures().with_path(directories[0], from, fuel + 1)->0;
                let next = scan_model::with_node(roots, finding);
                self.roots_measure(directories.drop_first(), next, after, to, fuel);
                if let Finding::Node(node) = finding {
                    assert(next.drop_last() =~= roots);
                }
            }
        }
    }
}

/// A scan that leaves something out, be it hidden or excluded by the ignore files, finds no more than
/// one that leaves nothing out, up to the largest number.
pub proof fn leaving_out_adds_nothing(
    world: World,
    flags: ScanFlags,
    full: ScanFlags,
    directories: Seq<PathView>,
    fuel: nat,
)
    requires
        leaves_nothing_out(full),
        flags.follow_symlinks == full.follow_symlinks,
        kinds_are_known(world),
        (MeasureEnv { world, follow_symlinks: full.follow_symlinks }).one_thing_per_key(fuel + 1),
    ensures
        match (
            scan_laws::whole_scan(world, flags, directories, ScanControl::fresh(), fuel),
            scan_laws::whole_scan(world, full, directories, ScanControl::fresh(), fuel),
        ) {
            (Some((nodes, _)), Some((all, _))) => scan_laws::cap(scan_model::sizes(nodes))
                <= scan_laws::cap(scan_model::sizes(all)),
            _ => true,
        },
{
    let part = ScanEnv { world, flags };
    let whole = ScanEnv { world, flags: full };
    let t = Tally { seen: Set::empty(), control: ScanControl::fresh(), answers: 0 };
    let from = Measured::fresh();
    let none = Seq::<NodeView>::empty();
    let levels = fuel + 1;
    if part.scan_roots(directories, none, t, fuel) is Some && whole.scan_roots(
        directories,
        none,
        t,
        fuel,
    ) is Some {
        let env = whole.measures();
        let catalog = env.catalog(levels);
        whole.roots_measure(directories, none, t, from, fuel);
        let everything = env.paths_weigh(levels, directories, from, levels, levels);
        let to = env.with_paths(directories, from, levels)->0;
        assert(catalog.is_closed(to.seen));
        let (some, x) = part.roots_weigh(levels, to.seen, directories, none, t, fuel);
        assert forall|i: int| 0 <= i < some.len() implies everything.contains(#[trigger] some[i]) by {
            assert(to.seen.contains(some[i]));
        }
        catalog.parts_weigh_no_more(some, everything);
    }
}

} // verus!
