//! What the trees of a scan show: what is there, and what was to be left out.

use crate::clean_laws;
use crate::control::ScanControl;
use crate::measure::MeasureEnv;
use crate::measure_laws;
use crate::metadata;
use crate::metadata::FileKind;
use crate::paths::PathView;
use crate::rules;
use crate::rules::RuleView;
use crate::scan_laws;
use crate::scan_model;
use crate::scan_model::{
    EntryPlan, Finding, FrameView, IgnoredMode, JobView, NodeView, ScanEnv, ScanFlags, Tally,
};
use crate::world::{ItemView, World};
use vstd::prelude::*;

verus! {

impl ScanEnv {
    pub open spec fn eye(self) -> MeasureEnv {
        MeasureEnv { world: self.world, follow_symlinks: self.flags.follow_symlinks }
    }

    /// The entries of the directory under a path, none where they cannot be had.
    pub open spec fn items(self, path: PathView) -> Seq<ItemView> {
        match (self.world.listing)(path) {
            Some(items) => items,
            None => Seq::empty(),
        }
    }

    /// The rules in force inside a directory, where `rules` are in force around it.
    pub open spec fn rules_in(self, rules: Seq<RuleView>, path: PathView) -> Seq<RuleView> {
        match (self.world.ignore_file)(path) {
            Some(lines) if self.flags.respect_gitignore && rules::rules_build(lines) => rules.push(
                RuleView { root: path.bytes, lines },
            ),
            _ => rules,
        }
    }

    /// Whether the ignore files exclude an entry, where they count.
    pub open spec fn excludes(self, rules: Seq<RuleView>, path: PathView, kind: FileKind) -> bool {
        self.flags.respect_gitignore && rules::ignored_by(
            rules,
            path.bytes,
            kind == FileKind::Directory,
        )
    }

    /// Whether an entry belongs in the tree: it could be read with its kind, and it is to be left out
    /// neither as hidden nor as excluded by the ignore files.
    pub open spec fn is_wanted(self, rules: Seq<RuleView>, item: ItemView) -> bool {
        match item {
            ItemView::Entry { path, kind: Some(kind) } => {
                &&& !(self.flags.ignore_hidden && path.is_hidden())
                &&& !(self.flags.ignored_mode == IgnoredMode::Exclude && self.excludes(
                    rules,
                    path,
                    kind,
                ))
            },
            _ => false,
        }
    }

    /// Whether a node is what an entry of a directory at the given depth is to become.
    pub open spec fn is_child(
        self,
        depth: u32,
        rules: Seq<RuleView>,
        item: ItemView,
        child: NodeView,
    ) -> bool {
        &&& self.is_wanted(rules, item)
        &&& item matches ItemView::Entry { path, kind: Some(kind) }
        &&& child.path == path
        &&& child.ignored == self.excludes(rules, path, kind)
        &&& child.collapsed == (child.ignored && kind == FileKind::Directory)
        &&& child.depth == depth + if kind == FileKind::Directory {
            1int
        } else {
            0int
        }
    }

    /// Whether a path is rightly missing where the things under the paths of a list were counted:
    /// there is nothing under it, or the same thing was counted under another path.
    pub open spec fn is_excused(self, counted: Seq<PathView>, path: PathView) -> bool {
        ||| self.eye().found(path) is None
        ||| self.eye().mark(path) is Some && exists|j: int|
            0 <= j < counted.len() && self.eye().mark(#[trigger] counted[j]) == self.eye().mark(path)
    }

    /// Whether an entry of a directory was dealt with as it should be between two moments, each given
    /// by how many things had been counted: one that became no child left nothing counted, and if it
    /// belongs in the tree it is rightly missing.
    pub open spec fn is_step(
        self,
        rules: Seq<RuleView>,
        item: ItemView,
        became_child: bool,
        counted: Seq<PathView>,
        from: int,
        to: int,
    ) -> bool {
        &&& 0 <= from <= to <= counted.len()
        &&& !became_child ==> from == to
        &&& !became_child && self.is_wanted(rules, item) ==> self.is_excused(
            counted.take(from),
            item->Entry_path,
        )
    }

    /// Whether what was counted between two moments is what a node stands for: first what is under
    /// its path, and together its size.
    pub open spec fn is_span_of(
        self,
        node: NodeView,
        counted: Seq<PathView>,
        from: int,
        to: int,
    ) -> bool {
        &&& 0 <= from < to <= counted.len()
        &&& counted[from] == node.path
        &&& node.size == clean_laws::at_most_max(
            self.eye().weight(counted.subrange(from, to)) as int,
        )
    }

    /// Whether the children of a node are what the first `upto` entries of the directory are to
    /// become, in their order; `places` says which entry each of them comes from, and `times` how many
    /// things had been counted before each entry.
    pub open spec fn is_laid_out(
        self,
        depth: u32,
        rules: Seq<RuleView>,
        items: Seq<ItemView>,
        children: Seq<NodeView>,
        places: Seq<int>,
        times: Seq<int>,
        counted: Seq<PathView>,
        upto: int,
    ) -> bool {
        &&& places.len() == children.len()
        &&& times.len() == upto + 1
        &&& forall|i: int|
            0 <= i < places.len() ==> {
                &&& 0 <= #[trigger] places[i] < upto
                &&& self.is_child(depth, rules, items[places[i]], children[i])
                &&& self.is_span_of(children[i], counted, times[places[i]], times[places[i] + 1])
            }
        &&& forall|i: int, j: int|
            #![trigger places[i], places[j]]
            0 <= i < j < places.len() ==> places[i] < places[j]
        &&& forall|k: int|
            0 <= k < upto ==> self.is_step(
                rules,
                #[trigger] items[k],
                places.contains(k),
                counted,
                times[k],
                times[k + 1],
            )
    }

    /// Whether the things counted from one position to another are the one under the path at the
    /// first and everything in it: nothing in their directories has been missed, and each lies in one
    /// of them.
    pub open spec fn is_whole(self, counted: Seq<PathView>, from: int, to: int) -> bool {
        &&& forall|i: int|
            #![trigger counted[i]]
            #![trigger self.eye().has_filled(counted, i)]
            from <= i < to ==> self.eye().has_filled(counted, i)
        &&& forall|i: int|
            #![trigger counted[i]]
            #![trigger self.lies_from(counted, from, i)]
            from < i < to ==> self.lies_from(counted, from, i)
    }

    pub open spec fn lies_from(self, counted: Seq<PathView>, from: int, i: int) -> bool {
        exists|j: int|
            from <= j < i && self.eye().contents(#[trigger] counted[j]).contains(counted[i])
    }

    /// Whether what was counted between two moments is what a node stands for. For a collapsed
    /// directory this is everything in it.
    pub open spec fn spans(self, node: NodeView, counted: Seq<PathView>, from: int, to: int) -> bool {
        &&& self.is_span_of(node, counted, from, to)
        &&& node.collapsed && (self.eye().found(node.path) matches Some(meta) && meta.kind
            == FileKind::Directory) ==> self.is_whole(counted, from, to)
    }

    /// Whether a node shows what is under its path: a file its size; a directory its own size and
    /// that of its children, and as children what its entries are to become, between the moments in
    /// which it was gone through; a collapsed directory no children.
    pub open spec fn shows(
        self,
        node: NodeView,
        inside: Seq<RuleView>,
        counted: Seq<PathView>,
        from: int,
        to: int,
    ) -> bool {
        let items = self.items(node.path);
        match self.eye().found(node.path) {
            None => false,
            Some(meta) => if meta.kind != FileKind::Directory {
                node.children.len() == 0 && node.size == meta.size()
            } else if node.collapsed {
                node.children.len() == 0
            } else {
                &&& node.size == clean_laws::at_most_max(
                    meta.size() + clean_laws::sum_of(
                        node.children.map_values(|child: NodeView| child.size),
                    ),
                )
                &&& exists|places: Seq<int>, times: Seq<int>|
                    self.is_laid_out(
                        node.depth,
                        inside,
                        items,
                        node.children,
                        places,
                        times,
                        counted,
                        items.len() as int,
                    ) && times[0] == from + 1 && times.last() == to
            },
        }
    }

    /// Whether a node, under which `rules` are in force around it, and everything below it show what
    /// is there, where the things under the paths of a list were counted.
    pub open spec fn fits(
        self,
        node: NodeView,
        rules: Seq<RuleView>,
        counted: Seq<PathView>,
    ) -> bool
        decreases node,
    {
        &&& node.name == node.path.display_name(self.flags.full_path)
        &&& exists|from: int, to: int| #[trigger]
            self.spans(node, counted, from, to) && self.shows(
                node,
                self.rules_in(rules, node.path),
                counted,
                from,
                to,
            )
        &&& forall|i: int|
            #![trigger node.children[i]]
            0 <= i < node.children.len() ==> self.fits(
                node.children[i],
                self.rules_in(rules, node.path),
                counted,
            )
    }

    proof fn span_stays(
        self,
        node: NodeView,
        counted: Seq<PathView>,
        more: Seq<PathView>,
        from: int,
        to: int,
    )
        requires
            self.is_span_of(node, counted, from, to),
            counted.is_prefix_of(more),
        ensures
            self.is_span_of(node, more, from, to),
    {
        assert(more.subrange(from, to) =~= counted.subrange(from, to));
        assert(more[from] == counted[from]);
    }

    proof fn layout_stays(
        self,
        depth: u32,
        rules: Seq<RuleView>,
        items: Seq<ItemView>,
        children: Seq<NodeView>,
        places: Seq<int>,
        times: Seq<int>,
        counted: Seq<PathView>,
        more: Seq<PathView>,
        upto: int,
    )
        requires
            self.is_laid_out(depth, rules, items, children, places, times, counted, upto),
            counted.is_prefix_of(more),
        ensures
            self.is_laid_out(depth, rules, items, children, places, times, more, upto),
    {
        assert forall|i: int| 0 <= i < places.len() implies {
            &&& 0 <= #[trigger] places[i] < upto
            &&& self.is_child(depth, rules, items[places[i]], children[i])
            &&& self.is_span_of(children[i], more, times[places[i]], times[places[i] + 1])
        } by {
            self.span_stays(children[i], counted, more, times[places[i]], times[places[i] + 1]);
        }
        assert forall|k: int| 0 <= k < upto implies self.is_step(
            rules,
            #[trigger] items[k],
            places.contains(k),
            more,
            times[k],
            times[k + 1],
        ) by {
            assert(self.is_step(
                rules,
                items[k],
                places.contains(k),
                counted,
                times[k],
                times[k + 1],
            ));
            assert(more.take(times[k]) =~= counted.take(times[k]));
        }
    }

    proof fn whole_stays(self, counted: Seq<PathView>, more: Seq<PathView>, from: int, to: int)
        requires
            0 <= from < to <= counted.len(),
            self.is_whole(counted, from, to),
            counted.is_prefix_of(more),
        ensures
            self.is_whole(more, from, to),
    {
        assert forall|i: int|
            #![trigger more[i]]
            #![trigger self.eye().has_filled(more, i)]
            from <= i < to implies self.eye().has_filled(more, i) by {
            assert(counted[i] == more[i]);
            self.eye().filled_stays(counted, more, i);
        }
        assert forall|i: int|
            #![trigger more[i]]
            #![trigger self.lies_from(more, from, i)]
            from < i < to implies self.lies_from(more, from, i) by {
            assert(counted[i] == more[i]);
            assert(self.lies_from(counted, from, i));
            let j = choose|j: int|
                from <= j < i && self.eye().contents(#[trigger] counted[j]).contains(counted[i]);
            assert(more[j] == counted[j]);
        }
    }

    proof fn fits_stays(
        self,
        node: NodeView,
        rules: Seq<RuleView>,
        counted: Seq<PathView>,
        more: Seq<PathView>,
    )
        requires
            self.fits(node, rules, counted),
            counted.is_prefix_of(more),
        ensures
            self.fits(node, rules, more),
        decreases node,
    {
        let inside = self.rules_in(rules, node.path);
        let items = self.items(node.path);
        let (from, to) = choose|from: int, to: int| #[trigger]
            self.spans(node, counted, from, to) && self.shows(node, inside, counted, from, to);
        self.span_stays(node, counted, more, from, to);
        if node.collapsed && (self.eye().found(node.path) matches Some(meta) && meta.kind
            == FileKind::Directory) {
            self.whole_stays(counted, more, from, to);
        }
        assert(self.spans(node, more, from, to));
        if let Some(meta) = self.eye().found(node.path) {
            if meta.kind == FileKind::Directory && !node.collapsed {
                let (places, times) = choose|places: Seq<int>, times: Seq<int>|
                    self.is_laid_out(
                        node.depth,
                        inside,
                        items,
                        node.children,
                        places,
                        times,
                        counted,
                        items.len() as int,
                    ) && times[0] == from + 1 && times.last() == to;
                self.layout_stays(
                    node.depth,
                    inside,
                    items,
                    node.children,
                    places,
                    times,
                    counted,
                    more,
                    items.len() as int,
                );
            }
        }
        assert(self.shows(node, inside, more, from, to));
        assert forall|i: int|
            #![trigger node.children[i]]
            0 <= i < node.children.len() implies self.fits(node.children[i], inside, more) by {
            self.fits_stays(node.children[i], inside, counted, more);
        }
    }

    /// Whether what has been gone through of a directory of which only sizes count shows in its frame.
    #[verifier::opaque]
    pub open spec fn keeps_sums(
        self,
        frame: FrameView,
        whole: Seq<ItemView>,
        counted: Seq<PathView>,
        at: int,
    ) -> bool {
        let upto = whole.len() - frame.items.len();
        let weight = self.eye().weight(counted.subrange(at, counted.len() as int)) as int;
        &&& frame.children.len() == 0
        &&& clean_laws::at_most_max(frame.own + frame.total) == clean_laws::at_most_max(weight)
        &&& forall|k: int|
            0 <= k < upto && (#[trigger] whole[k]) is Entry ==> self.eye().has_counted(
                counted,
                whole[k]->Entry_path,
            )
        &&& forall|i: int|
            #![trigger counted[i]]
            at < i < counted.len() ==> self.eye().has_filled(counted, i) && self.lies_from(
                counted,
                at,
                i,
            )
    }

    /// Whether what has been gone through of a directory that becomes a node with children shows in
    /// its frame.
    #[verifier::opaque]
    pub open spec fn keeps_nodes(
        self,
        frame: FrameView,
        rules: Seq<RuleView>,
        whole: Seq<ItemView>,
        places: Seq<int>,
        times: Seq<int>,
        counted: Seq<PathView>,
        at: int,
    ) -> bool {
        let upto = whole.len() - frame.items.len();
        let weight = self.eye().weight(counted.subrange(at, counted.len() as int)) as int;
        &&& clean_laws::at_most_max(
            frame.own + clean_laws::sum_of(frame.children.map_values(|child: NodeView| child.size)),
        ) == clean_laws::at_most_max(weight)
        &&& self.is_laid_out(
            frame.job.depth,
            rules,
            whole,
            frame.children,
            places,
            times,
            counted,
            upto,
        )
        &&& times[0] == at + 1
        &&& times.last() == counted.len()
        &&& forall|i: int|
            #![trigger frame.children[i]]
            0 <= i < frame.children.len() ==> self.fits(frame.children[i], rules, counted)
    }

    /// Whether what has been gone through of a directory shows in its frame: `whole` are all of its
    /// entries, and the directory itself was counted at the position `at`.
    #[verifier::opaque]
    pub open spec fn is_kept(
        self,
        frame: FrameView,
        rules: Seq<RuleView>,
        whole: Seq<ItemView>,
        places: Seq<int>,
        times: Seq<int>,
        counted: Seq<PathView>,
        at: int,
    ) -> bool {
        let upto = whole.len() - frame.items.len();
        &&& upto >= 0
        &&& frame.items == whole.skip(upto)
        &&& whole == self.items(frame.job.path)
        &&& 0 <= at < counted.len()
        &&& counted[at] == frame.job.path
        &&& self.eye().found(frame.job.path) matches Some(meta)
        &&& meta.is_dir()
        &&& meta.size() == frame.own
        &&& if frame.job.summed() {
            self.keeps_sums(frame, whole, counted, at)
        } else {
            self.keeps_nodes(frame, rules, whole, places, times, counted, at)
        }
    }

    /// Whether a finding is what a path comes to, where the things counted since are those in
    /// `counted` from `at` on.
    #[verifier::opaque]
    pub open spec fn is_told(
        self,
        job: JobView,
        rules: Seq<RuleView>,
        finding: Finding,
        counted: Seq<PathView>,
        at: int,
    ) -> bool {
        let weight = self.eye().weight(counted.subrange(at, counted.len() as int)) as int;
        match finding {
            Finding::Nothing => {
                &&& at == counted.len()
                &&& self.is_excused(counted, job.path)
            },
            Finding::Node(node) => {
                &&& !job.inner
                &&& node.path == job.path
                &&& node.depth == job.depth
                &&& node.ignored == job.ignored
                &&& node.collapsed == job.collapsed
                &&& 0 <= at < counted.len()
                &&& counted[at] == job.path
                &&& node.size == clean_laws::at_most_max(weight)
                &&& self.fits(node, rules, counted)
            },
            Finding::Size(size) => {
                &&& job.inner
                &&& 0 <= at < counted.len()
                &&& counted[at] == job.path
                &&& size == clean_laws::at_most_max(weight)
                &&& self.is_whole(counted, at, counted.len() as int)
            },
        }
    }
}

/// One more number adds to a sum.
proof fn sum_grows(nodes: Seq<NodeView>, node: NodeView)
    ensures
        clean_laws::sum_of(nodes.push(node).map_values(|child: NodeView| child.size))
            == clean_laws::sum_of(nodes.map_values(|child: NodeView| child.size)) + node.size,
{
    let sizes = nodes.map_values(|child: NodeView| child.size);
    let longer = nodes.push(node).map_values(|child: NodeView| child.size);
    assert(longer.drop_last() =~= sizes);
}

proof fn sizes_are_sums(nodes: Seq<NodeView>)
    ensures
        scan_model::sizes(nodes) == clean_laws::sum_of(
            nodes.map_values(|child: NodeView| child.size),
        ),
    decreases nodes.len(),
{
    if nodes.len() > 0 {
        sizes_are_sums(nodes.drop_last());
        sum_grows(nodes.drop_last(), nodes.last());
        assert(nodes.drop_last().push(nodes.last()) =~= nodes);
    }
}

impl ScanEnv {
    proof fn span_grows(self, counted: Seq<PathView>, more: Seq<PathView>, at: int)
        requires
            0 <= at <= counted.len(),
        ensures
            ({
                let all = counted + more;
                self.eye().weight(all.subrange(at, all.len() as int)) == self.eye().weight(
                    counted.subrange(at, counted.len() as int),
                ) + self.eye().weight(more)
            }),
            (counted + more).subrange(counted.len() as int, (counted + more).len() as int) == more,
            counted.is_prefix_of(counted + more),
    {
        let all = counted + more;
        let front = counted.subrange(at, counted.len() as int);
        assert(all.subrange(at, all.len() as int) =~= front + more);
        assert(all.subrange(counted.len() as int, all.len() as int) =~= more);
        self.eye().weights_join(front, more);
    }

    /// An entry that is passed over leaves the frame as it should be.
    pub proof fn skipping_keeps(
        self,
        frame: FrameView,
        rules: Seq<RuleView>,
        whole: Seq<ItemView>,
        places: Seq<int>,
        times: Seq<int>,
        counted: Seq<PathView>,
        at: int,
    )
        requires
            self.is_kept(frame, rules, whole, places, times, counted, at),
            frame.items.len() > 0,
            frame.job.plan(self.flags, frame.items[0], rules) is Skip,
        ensures
            self.is_kept(
                frame.rest(),
                rules,
                whole,
                places,
                times.push(counted.len() as int),
                counted,
                at,
            ),
    {
        reveal(ScanEnv::is_kept);
        reveal(ScanEnv::keeps_sums);
        reveal(ScanEnv::keeps_nodes);
        let upto = whole.len() - frame.items.len();
        let rest = frame.rest();
        assert(rest.items =~= whole.skip(upto + 1));
        assert(frame.items[0] == whole[upto]);
        if frame.job.summed() {
            assert forall|k: int|
                0 <= k < upto + 1 && (#[trigger] whole[k])
                    is Entry implies self.eye().has_counted(counted, whole[k]->Entry_path) by {
                assert(k != upto);
            }
        } else {
            assert(!self.is_wanted(rules, whole[upto]));
            self.layout_passes_by(
                rest.job.depth,
                rules,
                whole,
                rest.children,
                places,
                times,
                counted,
                upto,
            );
        }
    }

    /// An entry that became no child, and rightly so, leaves the children as they should be.
    proof fn layout_passes_by(
        self,
        depth: u32,
        rules: Seq<RuleView>,
        items: Seq<ItemView>,
        children: Seq<NodeView>,
        places: Seq<int>,
        times: Seq<int>,
        counted: Seq<PathView>,
        upto: int,
    )
        requires
            self.is_laid_out(depth, rules, items, children, places, times, counted, upto),
            0 <= upto < items.len(),
            times.last() == counted.len(),
            self.is_wanted(rules, items[upto]) ==> self.is_excused(
                counted,
                items[upto]->Entry_path,
            ),
        ensures
            self.is_laid_out(
                depth,
                rules,
                items,
                children,
                places,
                times.push(counted.len() as int),
                counted,
                upto + 1,
            ),
    {
        let later = times.push(counted.len() as int);
        assert(counted.take(counted.len() as int) =~= counted);
        assert forall|i: int| 0 <= i < places.len() implies {
            &&& 0 <= #[trigger] places[i] < upto + 1
            &&& self.is_child(depth, rules, items[places[i]], children[i])
            &&& self.is_span_of(children[i], counted, later[places[i]], later[places[i] + 1])
        } by {
            assert(later[places[i]] == times[places[i]]);
            assert(later[places[i] + 1] == times[places[i] + 1]);
        }
        assert forall|k: int| 0 <= k < upto + 1 implies self.is_step(
            rules,
            #[trigger] items[k],
            places.contains(k),
            counted,
            later[k],
            later[k + 1],
        ) by {
            if k < upto {
                assert(later[k] == times[k] && later[k + 1] == times[k + 1]);
            } else {
                assert(later[k] == times.last());
                assert(!places.contains(k)) by {
                    if places.contains(k) {
                        let i = choose|i: int| 0 <= i < places.len() && places[i] == k;
                        assert(places[i] < upto);
                    }
                }
            }
        }
    }

    /// An entry whose size counts adds to a frame where only sizes count.
    proof fn adding_keeps(
        self,
        frame: FrameView,
        rules: Seq<RuleView>,
        whole: Seq<ItemView>,
        places: Seq<int>,
        times: Seq<int>,
        counted: Seq<PathView>,
        at: int,
        job: JobView,
        finding: Finding,
        more: Seq<PathView>,
    )
        requires
            self.is_kept(frame, rules, whole, places, times, counted, at),
            frame.job.summed(),
            frame.items.len() > 0,
            frame.job.plan(self.flags, frame.items[0], rules) == EntryPlan::Visit(job),
            self.is_told(job, rules, finding, counted + more, counted.len() as int),
        ensures
            self.is_kept(
                frame.rest().absorb(finding),
                rules,
                whole,
                places,
                times.push((counted + more).len() as int),
                counted + more,
                at,
            ),
    {
        reveal(ScanEnv::is_kept);
        let upto = whole.len() - frame.items.len();
        let next = frame.rest().absorb(finding);
        let all = counted + more;
        let n = counted.len() as int;
        assert(next.items =~= whole.skip(upto + 1));
        assert(frame.items[0] == whole[upto]);
        assert(whole[upto] is Entry && whole[upto]->Entry_path == job.path);
        assert(job.inner);
        self.span_grows(counted, more, at);
        assert(all[at] == frame.job.path);
        assert(!(finding is Node)) by {
            reveal(ScanEnv::is_told);
        }
        if let Finding::Size(size) = finding {
            assert(n < all.len() && all[n] == job.path && size == clean_laws::at_most_max(
                self.eye().weight(more) as int,
            ) && self.is_whole(all, n, all.len() as int)) by {
                reveal(ScanEnv::is_told);
            }
            measure_laws::readable_is_listed(whole, upto);
            assert(self.eye().contents(counted[at]).contains(all[n]));
            self.sums_grow(frame, whole, counted, more, at, size);
        } else {
            assert(n == all.len() && self.is_excused(all, job.path)) by {
                reveal(ScanEnv::is_told);
            }
            assert(all =~= counted);
            self.sums_pass_by(frame, whole, counted, at);
        }
    }

    /// An entry that is rightly missing leaves the sums as they should be.
    proof fn sums_pass_by(
        self,
        frame: FrameView,
        whole: Seq<ItemView>,
        counted: Seq<PathView>,
        at: int,
    )
        requires
            self.keeps_sums(frame, whole, counted, at),
            0 < frame.items.len() <= whole.len(),
            ({
                let item = whole[whole.len() - frame.items.len()];
                item is Entry ==> self.is_excused(counted, item->Entry_path)
            }),
        ensures
            self.keeps_sums(frame.rest(), whole, counted, at),
    {
        reveal(ScanEnv::keeps_sums);
        let upto = whole.len() - frame.items.len();
        assert forall|k: int| 0 <= k < upto + 1 && (#[trigger] whole[k])
            is Entry implies self.eye().has_counted(counted, whole[k]->Entry_path) by {
            if k == upto {
                assert(self.is_excused(counted, whole[k]->Entry_path));
            }
        }
    }

    /// An entry whose size counts adds to the sums as it should.
    proof fn sums_grow(
        self,
        frame: FrameView,
        whole: Seq<ItemView>,
        counted: Seq<PathView>,
        more: Seq<PathView>,
        at: int,
        size: u64,
    )
        requires
            self.keeps_sums(frame, whole, counted, at),
            0 < frame.items.len() <= whole.len(),
            0 <= at < counted.len(),
            more.len() > 0,
            whole[whole.len() - frame.items.len()] is Entry ==> more[0] == whole[whole.len()
                - frame.items.len()]->Entry_path,
            size == clean_laws::at_most_max(self.eye().weight(more) as int),
            self.is_whole(counted + more, counted.len() as int, (counted + more).len() as int),
            self.eye().contents(counted[at]).contains(more[0]),
        ensures
            self.keeps_sums(frame.rest().absorb(Finding::Size(size)), whole, counted + more, at),
    {
        reveal(ScanEnv::keeps_sums);
        let eye = self.eye();
        let upto = whole.len() - frame.items.len();
        let all = counted + more;
        let n = counted.len() as int;
        self.span_grows(counted, more, at);
        assert(all[n] == more[0]);
        self.whole_joins(counted, all, at);
        assert forall|k: int| 0 <= k < upto + 1 && (#[trigger] whole[k])
            is Entry implies eye.has_counted(all, whole[k]->Entry_path) by {
            if k < upto {
                eye.counted_stays(counted, all, whole[k]->Entry_path);
            }
        }
    }

    /// What lies in a directory and is whole joins what was counted in it before.
    proof fn whole_joins(self, counted: Seq<PathView>, all: Seq<PathView>, at: int)
        requires
            0 <= at < counted.len() < all.len(),
            counted.is_prefix_of(all),
            self.eye().contents(counted[at]).contains(all[counted.len() as int]),
            self.is_whole(all, counted.len() as int, all.len() as int),
            forall|i: int|
                #![trigger counted[i]]
                at < i < counted.len() ==> self.eye().has_filled(counted, i) && self.lies_from(
                    counted,
                    at,
                    i,
                ),
        ensures
            forall|i: int|
                #![trigger all[i]]
                at < i < all.len() ==> self.eye().has_filled(all, i) && self.lies_from(all, at, i),
    {
        let eye = self.eye();
        let n = counted.len() as int;
        assert(all[at] == counted[at]);
        assert forall|i: int| #![trigger all[i]] at < i < all.len() implies eye.has_filled(all, i)
            && self.lies_from(all, at, i) by {
            if i < n {
                assert(counted[i] == all[i]);
                eye.filled_stays(counted, all, i);
                assert(self.lies_from(counted, at, i));
                let j = choose|j: int|
                    at <= j < i && eye.contents(#[trigger] counted[j]).contains(counted[i]);
                assert(all[j] == counted[j]);
            } else {
                assert(eye.has_filled(all, i));
                if i == n {
                    assert(eye.contents(all[at]).contains(all[i]));
                } else {
                    assert(self.lies_from(all, n, i));
                    let j = choose|j: int|
                        n <= j < i && eye.contents(#[trigger] all[j]).contains(all[i]);
                    assert(at <= j < i);
                }
            }
        }
    }

    /// An entry that becomes a node, or that is rightly missing, keeps a frame as it should be.
    proof fn growing_keeps(
        self,
        frame: FrameView,
        rules: Seq<RuleView>,
        whole: Seq<ItemView>,
        places: Seq<int>,
        times: Seq<int>,
        counted: Seq<PathView>,
        at: int,
        job: JobView,
        finding: Finding,
        more: Seq<PathView>,
    ) -> (now: Seq<int>)
        requires
            self.is_kept(frame, rules, whole, places, times, counted, at),
            !frame.job.summed(),
            frame.items.len() > 0,
            frame.job.plan(self.flags, frame.items[0], rules) == EntryPlan::Visit(job),
            self.is_told(job, rules, finding, counted + more, counted.len() as int),
        ensures
            self.is_kept(
                frame.rest().absorb(finding),
                rules,
                whole,
                now,
                times.push((counted + more).len() as int),
                counted + more,
                at,
            ),
    {
        reveal(ScanEnv::is_kept);
        reveal(ScanEnv::keeps_nodes);
        reveal(ScanEnv::is_told);
        let upto = whole.len() - frame.items.len();
        let next = frame.rest().absorb(finding);
        let all = counted + more;
        let depth = frame.job.depth;
        assert(next.items =~= whole.skip(upto + 1));
        assert(frame.items[0] == whole[upto]);
        assert(whole[upto]->Entry_path == job.path);
        self.span_grows(counted, more, at);
        assert(all[at] == frame.job.path);
        self.layout_stays(depth, rules, whole, frame.children, places, times, counted, all, upto);
        let later = times.push(all.len() as int);
        assert forall|i: int|
            #![trigger frame.children[i]]
            0 <= i < frame.children.len() implies self.fits(frame.children[i], rules, all) by {
            self.fits_stays(frame.children[i], rules, counted, all);
        }
        match finding {
            Finding::Node(node) => {
                let now = places.push(upto);
                sum_grows(frame.children, node);
                assert(self.is_child(depth, rules, whole[upto], node));
                assert(self.is_span_of(node, all, counted.len() as int, all.len() as int));
                self.layout_grows(
                    depth,
                    rules,
                    whole,
                    frame.children,
                    places,
                    times,
                    all,
                    upto,
                    node,
                );
                assert forall|i: int|
                    #![trigger next.children[i]]
                    0 <= i < next.children.len() implies self.fits(next.children[i], rules, all) by {
                    if i < frame.children.len() {
                        assert(next.children[i] == frame.children[i]);
                    }
                }
                now
            },
            _ => {
                assert(finding is Nothing);
                assert(more =~= Seq::empty());
                assert(all =~= counted);
                self.layout_passes_by(
                    depth,
                    rules,
                    whole,
                    next.children,
                    places,
                    times,
                    all,
                    upto,
                );
                places
            },
        }
    }

    /// An entry that became a child adds to the children as it should.
    proof fn layout_grows(
        self,
        depth: u32,
        rules: Seq<RuleView>,
        items: Seq<ItemView>,
        children: Seq<NodeView>,
        places: Seq<int>,
        times: Seq<int>,
        counted: Seq<PathView>,
        upto: int,
        node: NodeView,
    )
        requires
            self.is_laid_out(depth, rules, items, children, places, times, counted, upto),
            0 <= upto < items.len(),
            self.is_child(depth, rules, items[upto], node),
            self.is_span_of(node, counted, times.last(), counted.len() as int),
        ensures
            self.is_laid_out(
                depth,
                rules,
                items,
                children.push(node),
                places.push(upto),
                times.push(counted.len() as int),
                counted,
                upto + 1,
            ),
    {
        let later = times.push(counted.len() as int);
        let now = places.push(upto);
        let more = children.push(node);
        assert forall|i: int| 0 <= i < now.len() implies {
            &&& 0 <= #[trigger] now[i] < upto + 1
            &&& self.is_child(depth, rules, items[now[i]], more[i])
            &&& self.is_span_of(more[i], counted, later[now[i]], later[now[i] + 1])
        } by {
            if i < places.len() {
                assert(now[i] == places[i]);
                assert(more[i] == children[i]);
                assert(later[places[i]] == times[places[i]]);
                assert(later[places[i] + 1] == times[places[i] + 1]);
            } else {
                assert(later[upto] == times.last());
            }
        }
        assert forall|i: int, j: int|
            #![trigger now[i], now[j]]
            0 <= i < j < now.len() implies now[i] < now[j] by {
            assert(now[i] == places[i]);
            if j < places.len() {
                assert(now[j] == places[j]);
            }
        }
        assert forall|k: int| 0 <= k < upto + 1 implies self.is_step(
            rules,
            #[trigger] items[k],
            now.contains(k),
            counted,
            later[k],
            later[k + 1],
        ) by {
            if k < upto {
                assert(later[k] == times[k] && later[k + 1] == times[k + 1]);
                if places.contains(k) {
                    let i = choose|i: int| 0 <= i < places.len() && places[i] == k;
                    assert(now[i] == k);
                }
                if now.contains(k) {
                    let i = choose|i: int| 0 <= i < now.len() && now[i] == k;
                    assert(places[i] == k);
                }
            } else {
                assert(now[places.len() as int] == k);
                assert(later[k] == times.last());
            }
        }
    }

    /// Whatever an entry that is visited comes to keeps a frame as it should be.
    pub proof fn absorbing_keeps(
        self,
        frame: FrameView,
        rules: Seq<RuleView>,
        whole: Seq<ItemView>,
        places: Seq<int>,
        times: Seq<int>,
        counted: Seq<PathView>,
        at: int,
        job: JobView,
        finding: Finding,
        more: Seq<PathView>,
    ) -> (now: Seq<int>)
        requires
            self.is_kept(frame, rules, whole, places, times, counted, at),
            frame.items.len() > 0,
            frame.job.plan(self.flags, frame.items[0], rules) == EntryPlan::Visit(job),
            self.is_told(job, rules, finding, counted + more, counted.len() as int),
        ensures
            self.is_kept(
                frame.rest().absorb(finding),
                rules,
                whole,
                now,
                times.push((counted + more).len() as int),
                counted + more,
                at,
            ),
    {
        if frame.job.summed() {
            self.adding_keeps(frame, rules, whole, places, times, counted, at, job, finding, more);
            places
        } else {
            self.growing_keeps(frame, rules, whole, places, times, counted, at, job, finding, more)
        }
    }

    /// The frame of a directory that was just counted is as it should be.
    pub proof fn frame_begins(self, frame: FrameView, inside: Seq<RuleView>, counted: Seq<PathView>)
        requires
            self.eye().found(frame.job.path) matches Some(meta) && meta.is_dir() && meta.size()
                == frame.own,
            frame.items == self.items(frame.job.path),
            frame.children.len() == 0,
            frame.total == 0,
        ensures
            self.is_kept(
                frame,
                inside,
                frame.items,
                Seq::empty(),
                seq![counted.len() as int + 1],
                counted.push(frame.job.path),
                counted.len() as int,
            ),
    {
        reveal(ScanEnv::is_kept);
        reveal(ScanEnv::keeps_sums);
        reveal(ScanEnv::keeps_nodes);
        let first = counted.push(frame.job.path);
        let n = counted.len() as int;
        let one = seq![frame.job.path];
        assert(first.subrange(n, n + 1) =~= one);
        assert(one.drop_last() =~= Seq::<PathView>::empty());
        assert(self.eye().weight(one.drop_last()) == 0);
        assert(frame.items.skip(0) =~= frame.items);
        assert(frame.children.map_values(|child: NodeView| child.size) =~= Seq::empty());
    }

    /// The entries that are left of a directory are entries of it.
    pub proof fn kept_items_are_listed(
        self,
        frame: FrameView,
        rules: Seq<RuleView>,
        whole: Seq<ItemView>,
        places: Seq<int>,
        times: Seq<int>,
        counted: Seq<PathView>,
        at: int,
    )
        requires
            self.is_kept(frame, rules, whole, places, times, counted, at),
            frame.items.len() > 0,
        ensures
            ({
                let k = whole.len() - frame.items.len();
                &&& (self.world.listing)(frame.job.path) == Some(whole)
                &&& 0 <= k < whole.len()
                &&& whole[k] == frame.items[0]
            }),
    {
        reveal(ScanEnv::is_kept);
    }

    /// A directory of which no entry is left comes to something where sizes stay below the largest
    /// number.
    pub proof fn kept_is_light(
        self,
        frame: FrameView,
        rules: Seq<RuleView>,
        whole: Seq<ItemView>,
        places: Seq<int>,
        times: Seq<int>,
        counted: Seq<PathView>,
        seen: Set<(u64, u64)>,
        at: int,
    )
        requires
            self.is_kept(frame, rules, whole, places, times, counted, at),
            self.eye().is_record(counted, seen),
            self.eye().is_light(),
        ensures
            frame.result(self.flags) is Some,
    {
        reveal(ScanEnv::is_kept);
        reveal(ScanEnv::keeps_nodes);
        let front = counted.take(at);
        let span = counted.subrange(at, counted.len() as int);
        assert(counted =~= front + span);
        self.eye().weights_join(front, span);
        sizes_are_sums(frame.children);
    }

    /// A directory of which no entry is left comes to what it should.
    proof fn closing_tells(
        self,
        frame: FrameView,
        inside: Seq<RuleView>,
        outer: Seq<RuleView>,
        whole: Seq<ItemView>,
        places: Seq<int>,
        times: Seq<int>,
        counted: Seq<PathView>,
        at: int,
    )
        requires
            self.is_kept(frame, inside, whole, places, times, counted, at),
            frame.items.len() == 0,
            !frame.job.summed() ==> inside == self.rules_in(outer, frame.job.path),
        ensures
            frame.result(self.flags) matches Some(finding) ==> self.is_told(
                frame.job,
                outer,
                finding,
                counted,
                at,
            ),
    {
        reveal(ScanEnv::is_kept);
        reveal(ScanEnv::keeps_sums);
        reveal(ScanEnv::keeps_nodes);
        reveal(ScanEnv::is_told);
        let eye = self.eye();
        let n = counted.len() as int;
        let job = frame.job;
        sizes_are_sums(frame.children);
        if job.summed() {
            assert(self.is_whole(counted, at, n)) by {
                eye.contents_are_entries(job.path);
                let contents = eye.contents(job.path);
                assert forall|k: int| 0 <= k < contents.len() implies eye.has_counted(
                    counted,
                    #[trigger] contents[k],
                ) by {
                    let kept = |item: ItemView| measure_laws::readable(item);
                    assert(contents.contains(contents[k]));
                    assert(contents == whole.filter_map(kept));
                    whole.lemma_filter_map_contains(kept, contents[k]);
                    let item = choose|item: ItemView| #[trigger] whole.contains(item) && kept(item)
                        == Some(contents[k]);
                    let i = choose|i: int| 0 <= i < whole.len() && whole[i] == item;
                    assert(whole[i] is Entry);
                }
                assert(eye.has_filled(counted, at));
                assert forall|i: int|
                    #![trigger counted[i]]
                    #![trigger eye.has_filled(counted, i)]
                    at <= i < n implies eye.has_filled(counted, i) by {
                    assert(counted[i] == counted[i]);
                }
                assert forall|i: int|
                    #![trigger counted[i]]
                    #![trigger self.lies_from(counted, at, i)]
                    at < i < n implies self.lies_from(counted, at, i) by {
                    assert(counted[i] == counted[i]);
                }
            }
        }
        if let Some(Finding::Node(node)) = frame.result(self.flags) {
            assert(self.spans(node, counted, at, n));
            if !job.collapsed {
                assert(self.is_laid_out(
                    node.depth,
                    inside,
                    whole,
                    node.children,
                    places,
                    times,
                    counted,
                    whole.len() as int,
                ));
            }
            assert(self.shows(node, self.rules_in(outer, node.path), counted, at, n));
            assert(self.fits(node, outer, counted));
        }
    }

    pub proof fn job_is_told(
        self,
        job: JobView,
        rules: Seq<RuleView>,
        tally: Tally,
        counted: Seq<PathView>,
        fuel: nat,
    ) -> (more: Seq<PathView>)
        requires
            self.eye().is_record(counted, tally.seen),
        ensures
            self.scan_job(job, rules, tally, fuel) matches Some((finding, to)) ==> {
                &&& self.eye().is_record(counted + more, to.seen)
                &&& self.is_told(job, rules, finding, counted + more, counted.len() as int)
            },
        decreases fuel, 1nat, 0nat,
    {
        reveal(ScanEnv::is_told);
        let eye = self.eye();
        let empty = Seq::<PathView>::empty();
        let path = job.path;
        let n = counted.len() as int;
        eye.contents_are_entries(path);
        assert(counted + empty =~= counted);
        if fuel == 0 {
            return empty;
        }
        match eye.found(path) {
            None => empty,
            Some(meta) => {
                let t = tally.answered(2).visited().answered(1);
                if metadata::is_counted(t.seen, meta) {
                    let key = meta.key()->0;
                    assert(tally.seen.contains(key));
                    let j = choose|j: int|
                        0 <= j < counted.len() && eye.mark(#[trigger] counted[j]) == Some(key);
                    assert(eye.mark(counted[j]) == eye.mark(path));
                    empty
                } else {
                    let one = seq![path];
                    let first = counted.push(path);
                    eye.record_grows(counted, tally.seen, path);
                    assert(counted + one =~= first);
                    assert(first[n] == path);
                    assert(first.subrange(n, n + 1) =~= one);
                    assert(one.drop_last() =~= empty);
                    assert(eye.weight(one.drop_last()) == 0);
                    assert(eye.weight(one) == meta.size());
                    if !meta.is_dir() {
                        assert(eye.contents(path) =~= empty);
                        assert(eye.has_filled(first, n));
                        assert(self.is_whole(first, n, n + 1));
                        if !job.inner {
                            let node = job.node(self.flags, meta.size(), Seq::empty());
                            assert(self.spans(node, first, n, n + 1));
                            assert(self.shows(
                                node,
                                self.rules_in(rules, path),
                                first,
                                n,
                                n + 1,
                            ));
                            assert(self.fits(node, rules, first));
                        }
                        one
                    } else {
                        let inside = if job.reads_rules(self.flags) {
                            rules::rules_inside(rules, path.bytes, (self.world.ignore_file)(path))
                        } else {
                            rules
                        };
                        let extra: nat = if job.reads_rules(self.flags) || job.summed() {
                            1
                        } else {
                            0
                        };
                        let last: nat = if (self.world.listing)(path) is Some {
                            2
                        } else {
                            1
                        };
                        let frame = FrameView {
                            job,
                            own: meta.size(),
                            items: self.items(path),
                            children: Seq::empty(),
                            total: 0,
                            failed: false,
                            outer: rules.len(),
                        };
                        let begun = t.counted(meta).answered(extra).answered(last);
                        let whole = self.items(path);
                        let places = Seq::<int>::empty();
                        self.frame_begins(frame, inside, counted);
                        let rest = self.filled_is_told(
                            frame,
                            inside,
                            rules,
                            whole,
                            places,
                            seq![n + 1],
                            begun,
                            first,
                            n,
                            fuel,
                        );
                        assert(counted + (one + rest) =~= first + rest);
                        one + rest
                    }
                }
            },
        }
    }

    proof fn filled_is_told(
        self,
        frame: FrameView,
        inside: Seq<RuleView>,
        outer: Seq<RuleView>,
        whole: Seq<ItemView>,
        places: Seq<int>,
        times: Seq<int>,
        tally: Tally,
        counted: Seq<PathView>,
        at: int,
        fuel: nat,
    ) -> (more: Seq<PathView>)
        requires
            self.eye().is_record(counted, tally.seen),
            self.is_kept(frame, inside, whole, places, times, counted, at),
            !frame.job.summed() ==> inside == self.rules_in(outer, frame.job.path),
        ensures
            self.filled(frame, inside, tally, fuel) matches Some((finding, to)) ==> {
                &&& self.eye().is_record(counted + more, to.seen)
                &&& self.is_told(frame.job, outer, finding, counted + more, at)
            },
        decreases fuel, 0nat, frame.items.len(),
    {
        let empty = Seq::<PathView>::empty();
        assert(counted + empty =~= counted);
        if frame.items.len() == 0 {
            self.closing_tells(frame, inside, outer, whole, places, times, counted, at);
            empty
        } else {
            match frame.job.plan(self.flags, frame.items[0], inside) {
                EntryPlan::Skip => {
                    self.skipping_keeps(frame, inside, whole, places, times, counted, at);
                    self.filled_is_told(
                        frame.rest(),
                        inside,
                        outer,
                        whole,
                        places,
                        times.push(counted.len() as int),
                        tally.answered(1),
                        counted,
                        at,
                        fuel,
                    )
                },
                EntryPlan::TooDeep => empty,
                EntryPlan::Visit(job) => {
                    if fuel == 0 {
                        return empty;
                    }
                    let lower = (fuel - 1) as nat;
                    let t = tally.answered(2).admitted();
                    let front = self.job_is_told(job, inside, t, counted, lower);
                    match self.scan_job(job, inside, t, lower) {
                        None => empty,
                        Some((finding, after)) => {
                            let half = counted + front;
                            let next = frame.rest().absorb(finding);
                            let now = self.absorbing_keeps(
                                frame,
                                inside,
                                whole,
                                places,
                                times,
                                counted,
                                at,
                                job,
                                finding,
                                front,
                            );
                            let back = self.filled_is_told(
                                next,
                                inside,
                                outer,
                                whole,
                                now,
                                times.push(half.len() as int),
                                after,
                                half,
                                at,
                                fuel,
                            );
                            assert(counted + (front + back) =~= half + back);
                            front + back
                        },
                    }
                },
            }
        }
    }
}

impl ScanEnv {
    /// Whether one of the directories that were asked for was dealt with as it should be between two
    /// moments: where there is no tree for it nothing was counted and it is rightly missing.
    pub open spec fn is_root_step(
        self,
        path: PathView,
        became_root: bool,
        counted: Seq<PathView>,
        from: int,
        to: int,
    ) -> bool {
        &&& 0 <= from <= to <= counted.len()
        &&& !became_root ==> from == to && self.is_excused(counted.take(from), path)
    }

    /// Whether a tree is that of one of the directories that were asked for, gone through between two
    /// moments: its root is neither ignored nor collapsed and lies at depth zero, and no rules are in
    /// force around it.
    pub open spec fn is_root_for(
        self,
        path: PathView,
        root: NodeView,
        counted: Seq<PathView>,
        from: int,
        to: int,
    ) -> bool {
        &&& root.path == path
        &&& root.depth == 0
        &&& !root.ignored
        &&& !root.collapsed
        &&& self.is_span_of(root, counted, from, to)
        &&& self.fits(root, Seq::empty(), counted)
    }

    /// Whether the trees of a scan show what is under the first `upto` of the directories that were
    /// asked for, in their order; `places` says which directory each of them comes from, and `times`
    /// how many things had been counted before each directory.
    pub open spec fn shows_roots(
        self,
        directories: Seq<PathView>,
        roots: Seq<NodeView>,
        places: Seq<int>,
        times: Seq<int>,
        counted: Seq<PathView>,
        upto: int,
    ) -> bool {
        &&& places.len() == roots.len()
        &&& times.len() == upto + 1
        &&& times[0] == 0
        &&& times.last() == counted.len()
        &&& forall|i: int|
            0 <= i < places.len() ==> 0 <= #[trigger] places[i] < upto && self.is_root_for(
                directories[places[i]],
                roots[i],
                counted,
                times[places[i]],
                times[places[i] + 1],
            )
        &&& forall|i: int, j: int|
            #![trigger places[i], places[j]]
            0 <= i < j < places.len() ==> places[i] < places[j]
        &&& forall|k: int|
            0 <= k < upto ==> self.is_root_step(
                #[trigger] directories[k],
                places.contains(k),
                counted,
                times[k],
                times[k + 1],
            )
        &&& clean_laws::at_most_max(
            clean_laws::sum_of(roots.map_values(|root: NodeView| root.size)),
        ) == clean_laws::at_most_max(self.eye().weight(counted) as int)
    }

    proof fn roots_grow(
        self,
        directories: Seq<PathView>,
        roots: Seq<NodeView>,
        places: Seq<int>,
        times: Seq<int>,
        counted: Seq<PathView>,
        upto: int,
        finding: Finding,
        more: Seq<PathView>,
    ) -> (now: Seq<int>)
        requires
            0 <= upto < directories.len(),
            self.shows_roots(directories, roots, places, times, counted, upto),
            self.is_told(
                JobView::root(directories[upto]),
                Seq::empty(),
                finding,
                counted + more,
                counted.len() as int,
            ),
        ensures
            self.shows_roots(
                directories,
                scan_model::with_node(roots, finding),
                now,
                times.push((counted + more).len() as int),
                counted + more,
                upto + 1,
            ),
    {
        reveal(ScanEnv::is_told);
        let all = counted + more;
        let n = counted.len() as int;
        let next = scan_model::with_node(roots, finding);
        let later = times.push(all.len() as int);
        self.span_grows(counted, more, 0);
        assert(all.subrange(0, all.len() as int) =~= all);
        assert(counted.subrange(0, n) =~= counted);
        let now = match finding {
            Finding::Node(_) => places.push(upto),
            _ => places,
        };
        if let Finding::Node(node) = finding {
            sum_grows(roots, node);
            assert(self.is_root_for(directories[upto], node, all, n, all.len() as int));
        } else {
            assert(finding is Nothing);
            assert(all =~= counted);
        }
        assert forall|i: int| 0 <= i < now.len() implies 0 <= #[trigger] now[i] < upto + 1
            && self.is_root_for(
            directories[now[i]],
            next[i],
            all,
            later[now[i]],
            later[now[i] + 1],
        ) by {
            if i < places.len() {
                assert(now[i] == places[i]);
                assert(next[i] == roots[i]);
                assert(later[places[i]] == times[places[i]]);
                assert(later[places[i] + 1] == times[places[i] + 1]);
                self.fits_stays(roots[i], Seq::empty(), counted, all);
                self.span_stays(roots[i], counted, all, times[places[i]], times[places[i] + 1]);
            } else {
                assert(later[upto] == times.last());
            }
        }
        assert forall|i: int, j: int|
            #![trigger now[i], now[j]]
            0 <= i < j < now.len() implies now[i] < now[j] by {
            assert(now[i] == places[i]);
            if j < places.len() {
                assert(now[j] == places[j]);
            }
        }
        assert forall|k: int| 0 <= k < upto + 1 implies self.is_root_step(
            #[trigger] directories[k],
            now.contains(k),
            all,
            later[k],
            later[k + 1],
        ) by {
            if k < upto {
                assert(later[k] == times[k] && later[k + 1] == times[k + 1]);
                assert(self.is_root_step(
                    directories[k],
                    places.contains(k),
                    counted,
                    times[k],
                    times[k + 1],
                ));
                assert(all.take(times[k]) =~= counted.take(times[k]));
                if places.contains(k) {
                    let i = choose|i: int| 0 <= i < places.len() && places[i] == k;
                    assert(now[i] == k);
                }
                if now.contains(k) {
                    let i = choose|i: int| 0 <= i < now.len() && now[i] == k;
                    assert(places[i] == k);
                }
            } else {
                assert(later[k] == times.last());
                if let Finding::Node(_) = finding {
                    assert(now[places.len() as int] == k);
                } else {
                    assert(all.take(n) =~= all);
                    if now.contains(k) {
                        let i = choose|i: int| 0 <= i < places.len() && places[i] == k;
                        assert(places[i] < upto);
                    }
                }
            }
        }
        assert(later[0] == times[0]);
        now
    }

    proof fn roots_are_told(
        self,
        directories: Seq<PathView>,
        upto: int,
        roots: Seq<NodeView>,
        places: Seq<int>,
        times: Seq<int>,
        tally: Tally,
        counted: Seq<PathView>,
        fuel: nat,
    ) -> (shown: (Seq<int>, Seq<int>, Seq<PathView>))
        requires
            0 <= upto <= directories.len(),
            self.eye().is_record(counted, tally.seen),
            self.shows_roots(directories, roots, places, times, counted, upto),
        ensures
            self.scan_roots(directories.skip(upto), roots, tally, fuel) matches Some((nodes, to))
                ==> {
                &&& self.eye().is_record(shown.2, to.seen)
                &&& self.shows_roots(
                    directories,
                    nodes,
                    shown.0,
                    shown.1,
                    shown.2,
                    directories.len() as int,
                )
            },
        decreases directories.len() - upto,
    {
        let left = directories.skip(upto);
        if left.len() == 0 {
            return (places, times, counted);
        }
        let job = JobView::root(directories[upto]);
        let t = tally.answered(1).admitted();
        let more = self.job_is_told(job, Seq::empty(), t, counted, fuel);
        assert(left[0] == directories[upto]);
        assert(left.drop_first() =~= directories.skip(upto + 1));
        match self.scan_job(job, Seq::empty(), t, fuel) {
            None => (places, times, counted),
            Some((finding, after)) => {
                let all = counted + more;
                let now = self.roots_grow(
                    directories,
                    roots,
                    places,
                    times,
                    counted,
                    upto,
                    finding,
                    more,
                );
                self.roots_are_told(
                    directories,
                    upto + 1,
                    scan_model::with_node(roots, finding),
                    now,
                    times.push(all.len() as int),
                    after,
                    all,
                    fuel,
                )
            },
        }
    }
}

/// What a scan shows. There is a tree for each of the directories that were asked for, in their
/// order. In each tree every directory that is not collapsed has as children what its entries are to
/// become: each that could be read and is to be left out neither as hidden nor as excluded by the
/// ignore files on the way down to it, under its own path, marked as ignored where they exclude it,
/// and collapsed where it is a directory besides. What is missing is not there, or the same thing was
/// counted under another path. A file has its size, a directory its own and that of its children, and
/// a collapsed one its own and that of everything in it. Nothing is counted twice that can be told
/// apart.
///
/// The result says which directory each tree comes from, how many things had been counted before each
/// directory, and what was counted.
pub proof fn trees_show_what_is_there(
    world: World,
    flags: ScanFlags,
    directories: Seq<PathView>,
    control: ScanControl,
    fuel: nat,
) -> (shown: (Seq<int>, Seq<int>, Seq<PathView>))
    ensures
        ({
            let env = ScanEnv { world, flags };
            scan_laws::whole_scan(world, flags, directories, control, fuel) matches Some((
                roots,
                tally,
            )) ==> {
                &&& env.shows_roots(
                    directories,
                    roots,
                    shown.0,
                    shown.1,
                    shown.2,
                    directories.len() as int,
                )
                &&& env.eye().is_record(shown.2, tally.seen)
            }
        }),
{
    let env = ScanEnv { world, flags };
    let from = Tally { seen: Set::empty(), control, answers: 0 };
    let none = Seq::<NodeView>::empty();
    let empty = Seq::<PathView>::empty();
    assert(directories.skip(0) =~= directories);
    assert(none.map_values(|root: NodeView| root.size) =~= Seq::empty());
    assert(env.eye().is_record(empty, from.seen));
    env.roots_are_told(directories, 0, none, Seq::empty(), seq![0int], from, empty, fuel)
}

} // verus!
