//! What a search for cleanup candidates finds, and that it misses nothing.

use crate::candidate_laws;
use crate::candidate_laws::{Haul, SearchEnv};
use crate::candidate_model;
use crate::candidate_model::{SearchView, SourceView};
use crate::clean::{CandidateView, CleanupCandidate, CleanupPreset};
use crate::control::ScanControl;
use crate::dir_walk::DirFlags;
use crate::measure::{MeasureEnv, MeasureView};
use crate::order;
use crate::order::Order;
use crate::paths::PathView;
use crate::scan_laws;
use crate::scan_model::{IgnoredMode, NodeView, ScanFlags};
use crate::scan_steps::WalkView;
use crate::sorting;
use crate::sorting::Ranked;
use crate::world::World;
use vstd::prelude::*;
use vstd::utf8;

verus! {

/// Whether a path ends in the name `node_modules` for the Node preset, or `target` for the Rust
/// preset.
pub open spec fn is_called(path: PathView, preset: CleanupPreset) -> bool {
    match preset {
        CleanupPreset::Node => path.file_name() == Some(
            seq![
                0x6eu8, 0x6fu8, 0x64u8, 0x65u8, 0x5fu8, 0x6du8, 0x6fu8, 0x64u8, 0x75u8, 0x6cu8,
                0x65u8, 0x73u8,
            ],
        ),
        CleanupPreset::Rust => path.file_name() == Some(
            seq![0x74u8, 0x61u8, 0x72u8, 0x67u8, 0x65u8, 0x74u8],
        ),
        CleanupPreset::Gitignored => false,
    }
}

/// A name that is plain ASCII is readable, and it alone reads as it does.
proof fn plain_name_is_read(bytes: Seq<u8>, chars: Seq<char>, name: Seq<u8>)
    requires
        utf8::is_ascii_chars(chars),
        bytes.len() == chars.len(),
        forall|i: int| 0 <= i < chars.len() ==> #[trigger] bytes[i] == chars[i] as u8,
    ensures
        utf8::valid_utf8(name) && utf8::decode_utf8(name) == chars <==> name == bytes,
{
    utf8::is_ascii_chars_encode_utf8(chars);
    assert(utf8::encode_utf8(chars) =~= bytes) by {
        assert forall|i: int| 0 <= i < bytes.len() implies utf8::encode_utf8(chars)[i]
            == bytes[i] by {
            assert(chars[i] as u8 == utf8::encode_utf8(chars)[i]);
        }
    }
    utf8::encode_utf8_valid_utf8(chars);
    utf8::encode_utf8_decode_utf8(chars);
    if utf8::valid_utf8(name) {
        utf8::decode_utf8_encode_utf8(name);
    }
}

/// A preset that goes by name takes directories with that name and no others.
pub proof fn names_are_spelled_out(path: PathView, preset: CleanupPreset)
    ensures
        candidate_model::is_named(path, preset) <==> is_called(path, preset),
{
    if let Some(name) = path.file_name() {
        match preset {
            CleanupPreset::Node => {
                reveal_strlit("node_modules");
                let bytes = seq![
                    0x6eu8, 0x6fu8, 0x64u8, 0x65u8, 0x5fu8, 0x6du8, 0x6fu8, 0x64u8, 0x75u8, 0x6cu8,
                    0x65u8, 0x73u8,
                ];
                plain_name_is_read(bytes, "node_modules"@, name);
            },
            CleanupPreset::Rust => {
                reveal_strlit("target");
                let bytes = seq![0x74u8, 0x61u8, 0x72u8, 0x67u8, 0x65u8, 0x74u8];
                plain_name_is_read(bytes, "target"@, name);
            },
            CleanupPreset::Gitignored => {},
        }
    }
}

/// Whether a candidate says of itself what its preset calls for.
pub open spec fn is_plain_about_itself(candidate: CandidateView) -> bool {
    match candidate.preset {
        CleanupPreset::Node => {
            &&& is_called(candidate.path, CleanupPreset::Node)
            &&& candidate.reason == "Node dependency directory"@
            &&& !candidate.ignored
        },
        CleanupPreset::Rust => {
            &&& is_called(candidate.path, CleanupPreset::Rust)
            &&& candidate.reason == "Cargo build output directory"@
            &&& !candidate.ignored
        },
        CleanupPreset::Gitignored => {
            &&& candidate.reason == "Path matched by .gitignore"@
            &&& candidate.ignored
        },
    }
}

/// Whatever a search was answered, each of its candidates of the Node preset ends in the name
/// `node_modules` and each of the Rust preset in the name `target`, those of the third preset and no
/// others count as ignored, each says why it can be cleaned up, and no path is listed twice.
pub proof fn candidates_are_what_they_say(search: SearchView)
    requires
        search.is_sound(),
    ensures
        forall|i: int|
            0 <= i < search.candidates.len() ==> is_plain_about_itself(
                #[trigger] search.candidates[i],
            ),
        forall|i: int, j: int|
            #![trigger search.candidates[i], search.candidates[j]]
            0 <= i < j < search.candidates.len() ==> search.candidates[i].path.parts
                != search.candidates[j].path.parts,
{
    assert forall|i: int| 0 <= i < search.candidates.len() implies is_plain_about_itself(
        #[trigger] search.candidates[i],
    ) by {
        let candidate = search.candidates[i];
        names_are_spelled_out(candidate.path, candidate.preset);
    }
}

impl SearchEnv {
    /// Whether a preset comes to a path and takes it: one that goes by name a directory with that
    /// name, the other an ignored path.
    pub open spec fn comes_up(self, preset: CleanupPreset, path: PathView, fuel: nat) -> bool {
        &&& self.paths_for(preset, fuel) matches Some(list)
        &&& list.contains(path)
        &&& preset == CleanupPreset::Gitignored || is_called(path, preset)
    }

    /// Whether a candidate is one that came up for one of the presets, with its size.
    pub open spec fn is_due(
        self,
        presets: Seq<CleanupPreset>,
        candidate: CandidateView,
        fuel: nat,
    ) -> bool {
        &&& presets.contains(candidate.preset)
        &&& self.comes_up(candidate.preset, candidate.path, fuel)
        &&& is_plain_about_itself(candidate)
        &&& (MeasureEnv { world: self.world, follow_symlinks: self.follow_symlinks }).size_of(
            candidate.path,
            fuel,
        ) == Some(candidate.size as nat)
    }

    proof fn paths_are_found(
        self,
        preset: CleanupPreset,
        list: Seq<PathView>,
        from: Haul,
        fuel: nat,
    )
        requires
            from.is_tight(),
        ensures
            self.with_paths(preset, list, from, fuel) matches Some(to) ==> {
                &&& to.is_tight()
                &&& from.candidates.is_prefix_of(to.candidates)
                &&& forall|i: int|
                    0 <= i < list.len() && (preset == CleanupPreset::Gitignored || is_called(
                        list[i],
                        preset,
                    )) ==> candidate_laws::lists(to.candidates, (#[trigger] list[i]).parts)
                &&& forall|j: int|
                    #![trigger to.candidates[j]]
                    from.candidates.len() <= j < to.candidates.len() ==> {
                        let candidate = to.candidates[j];
                        &&& candidate.preset == preset
                        &&& list.contains(candidate.path)
                        &&& preset == CleanupPreset::Gitignored || is_called(candidate.path, preset)
                        &&& is_plain_about_itself(candidate)
                        &&& (MeasureEnv {
                            world: self.world,
                            follow_symlinks: self.follow_symlinks,
                        }).size_of(candidate.path, fuel) == Some(candidate.size as nat)
                    }
            },
        decreases list.len(),
    {
        if list.len() > 0 {
            let later = list.drop_first();
            let path = list[0];
            names_are_spelled_out(path, preset);
            let nothing = Haul::nothing();
            assert(nothing.is_tight());
            let after = if preset != CleanupPreset::Gitignored && !candidate_model::is_named(
                path,
                preset,
            ) {
                Some(from)
            } else {
                self.path_after(preset, path, nothing, from, fuel);
                self.with_path(preset, path, from, fuel)
            };
            if let Some(after) = after {
                self.paths_are_found(preset, later, after, fuel);
                if let Some(to) = self.with_paths(preset, later, after, fuel) {
                    assert(from.candidates.is_prefix_of(after.candidates));
                    assert(from.candidates.is_prefix_of(to.candidates));
                    assert forall|i: int|
                        0 <= i < list.len() && (preset == CleanupPreset::Gitignored || is_called(
                            list[i],
                            preset,
                        )) implies candidate_laws::lists(
                        to.candidates,
                        (#[trigger] list[i]).parts,
                    ) by {
                        if i > 0 {
                            assert(later[i - 1] == list[i]);
                        } else {
                            assert(after.seen.contains(path.parts));
                            let k = choose|k: int|
                                0 <= k < after.candidates.len() && (
                                #[trigger] after.candidates[k]).path.parts == path.parts;
                            assert(to.candidates[k] == after.candidates[k]);
                        }
                    }
                    assert forall|j: int|
                        #![trigger to.candidates[j]]
                        from.candidates.len() <= j < to.candidates.len() implies {
                        let candidate = to.candidates[j];
                        &&& candidate.preset == preset
                        &&& list.contains(candidate.path)
                        &&& preset == CleanupPreset::Gitignored || is_called(candidate.path, preset)
                        &&& is_plain_about_itself(candidate)
                        &&& (MeasureEnv {
                            world: self.world,
                            follow_symlinks: self.follow_symlinks,
                        }).size_of(candidate.path, fuel) == Some(candidate.size as nat)
                    } by {
                        if j < after.candidates.len() {
                            assert(to.candidates[j] == after.candidates[j]);
                            assert(list[0] == to.candidates[j].path);
                        } else {
                            let p = to.candidates[j].path;
                            let k = choose|k: int| 0 <= k < later.len() && later[k] == p;
                            assert(list[k + 1] == p);
                        }
                    }
                }
            }
        }
    }

    proof fn presets_are_found(
        self,
        presets: Seq<CleanupPreset>,
        from: Haul,
        fuel: nat,
    )
        requires
            from.is_tight(),
        ensures
            self.with_presets(presets, from, fuel) matches Some(to) ==> {
                &&& to.is_tight()
                &&& from.candidates.is_prefix_of(to.candidates)
                &&& forall|k: int|
                    0 <= k < presets.len() ==> self.paths_for(#[trigger] presets[k], fuel) is Some
                &&& forall|preset: CleanupPreset, path: PathView|
                    presets.contains(preset) && #[trigger] self.comes_up(preset, path, fuel)
                        ==> candidate_laws::lists(to.candidates, path.parts)
                &&& forall|j: int|
                    from.candidates.len() <= j < to.candidates.len() ==> self.is_due(
                        presets,
                        #[trigger] to.candidates[j],
                        fuel,
                    )
            },
        decreases presets.len(),
    {
        if presets.len() > 0 {
            let later = presets.drop_first();
            let preset = presets[0];
            if let Some(list) = self.paths_for(preset, fuel) {
                self.paths_are_found(preset, list, from, fuel);
                if let Some(after) = self.with_paths(preset, list, from, fuel) {
                    self.presets_are_found(later, after, fuel);
                    if let Some(to) = self.with_presets(later, after, fuel) {
                        assert(from.candidates.is_prefix_of(to.candidates));
                        assert forall|k: int| 0 <= k < presets.len() implies self.paths_for(
                            #[trigger] presets[k],
                            fuel,
                        ) is Some by {
                            if k > 0 {
                                assert(later[k - 1] == presets[k]);
                            }
                        }
                        assert forall|one: CleanupPreset, path: PathView|
                            presets.contains(one) && #[trigger] self.comes_up(
                                one,
                                path,
                                fuel,
                            ) implies candidate_laws::lists(to.candidates, path.parts) by {
                            if one == preset {
                                let i = choose|i: int| 0 <= i < list.len() && list[i] == path;
                                assert(candidate_laws::lists(after.candidates, list[i].parts));
                                let n = choose|n: int|
                                    0 <= n < after.candidates.len() && (
                                    #[trigger] after.candidates[n]).path.parts == path.parts;
                                assert(to.candidates[n] == after.candidates[n]);
                            } else {
                                let k = choose|k: int| 0 <= k < presets.len() && presets[k] == one;
                                assert(later[k - 1] == one);
                            }
                        }
                        assert forall|j: int|
                            from.candidates.len() <= j < to.candidates.len() implies self.is_due(
                            presets,
                            #[trigger] to.candidates[j],
                            fuel,
                        ) by {
                            if j < after.candidates.len() {
                                assert(to.candidates[j] == after.candidates[j]);
                                assert(presets[0] == preset);
                            } else {
                                let one = to.candidates[j].preset;
                                let k = choose|k: int| 0 <= k < later.len() && later[k] == one;
                                assert(presets[k + 1] == one);
                            }
                        }
                    }
                }
            }
        }
    }

    /// A search lists every path that comes up for one of its presets, and nothing that does not: a
    /// candidate came up for its preset, and its size is what a measurement of it gives.
    pub proof fn search_finds_what_comes_up(self, presets: Seq<CleanupPreset>, fuel: nat)
        ensures
            self.with_presets(presets, Haul::nothing(), fuel) matches Some(haul) ==> {
                &&& forall|k: int|
                    0 <= k < presets.len() ==> self.paths_for(#[trigger] presets[k], fuel) is Some
                &&& forall|preset: CleanupPreset, path: PathView|
                    presets.contains(preset) && #[trigger] self.comes_up(preset, path, fuel)
                        ==> exists|i: int|
                        0 <= i < haul.candidates.len() && (
                        #[trigger] haul.candidates[i]).path.parts == path.parts
                &&& forall|i: int|
                    0 <= i < haul.candidates.len() ==> self.is_due(
                        presets,
                        #[trigger] haul.candidates[i],
                        fuel,
                    )
            },
    {
        assert(Haul::nothing().is_tight());
        self.presets_are_found(presets, Haul::nothing(), fuel);
        if let Some(haul) = self.with_presets(presets, Haul::nothing(), fuel) {
            assert forall|preset: CleanupPreset, path: PathView|
                presets.contains(preset) && #[trigger] self.comes_up(
                    preset,
                    path,
                    fuel,
                ) implies exists|i: int|
                0 <= i < haul.candidates.len() && (#[trigger] haul.candidates[i]).path.parts
                    == path.parts by {
                assert(candidate_laws::lists(haul.candidates, path.parts));
            }
        }
    }

    /// The directories that a preset comes to that goes by name: every root that is a directory, and
    /// in every directory without that name every entry that is one, but for hidden ones where they
    /// are left out and, where links are followed, for one that was come to under another path. It
    /// comes nowhere else.
    pub proof fn tour_for_preset_misses_nothing(self, preset: CleanupPreset, fuel: nat)
        requires
            preset != CleanupPreset::Gitignored,
        ensures
            self.paths_for(preset, fuel) matches Some(arrived) ==> {
                let env = self.tour(preset);
                &&& env.world == self.world
                &&& env.flags == self.dir_flags
                &&& forall|path: PathView| #[trigger] (env.enters)(path) <==> !is_called(path, preset)
                &&& forall|i: int|
                    0 <= i < self.roots.len() ==> env.has_met(arrived, #[trigger] self.roots[i])
                &&& forall|i: int|
                    #![trigger arrived[i]]
                    0 <= i < arrived.len() ==> env.has_searched(arrived, i) && env.was_led_to(
                        self.roots,
                        arrived,
                        i,
                    )
            },
    {
        self.tour(preset).tour_misses_nothing(self.roots, fuel);
        assert forall|path: PathView| #[trigger]
            (self.tour(preset).enters)(path) <==> !is_called(path, preset) by {
            names_are_spelled_out(path, preset);
        }
    }
}

/// How the file system is searched: the presets that go by name go into everything that is not to be
/// left out as hidden, `.git` entries too, and the third one scans with summaries of what the ignore
/// files exclude.
pub proof fn search_is_set_up_as_asked(
    world: World,
    roots: Seq<PathView>,
    presets: Seq<CleanupPreset>,
    ignore_hidden: bool,
    follow_symlinks: bool,
    fuel: nat,
)
    ensures
        ({
            let env = SearchView::begun(roots, presets, ignore_hidden, follow_symlinks).env(world);
            let flags = ScanFlags {
                ignore_hidden,
                full_path: true,
                respect_gitignore: true,
                ignored_mode: IgnoredMode::Summarize,
                follow_symlinks,
            };
            &&& env.world == world
            &&& env.roots == roots
            &&& env.follow_symlinks == follow_symlinks
            &&& env.dir_flags == (DirFlags { ignore_hidden, follow_symlinks, skip_git: false })
            &&& env.paths_for(CleanupPreset::Gitignored, fuel) == (match scan_laws::whole_scan(
                world,
                flags,
                roots,
                ScanControl::fresh(),
                fuel,
            ) {
                Some((nodes, _)) => Some(candidate_model::ignored_among(nodes)),
                None => None,
            })
        }),
{
}

/// Whether going down from a list of nodes by these steps, each to one of the nodes in the last,
/// leads to a node, through none that is ignored.
pub open spec fn leads_to(nodes: Seq<NodeView>, steps: Seq<int>, node: NodeView) -> bool
    decreases steps.len(),
{
    &&& steps.len() > 0
    &&& 0 <= steps[0] < nodes.len()
    &&& if steps.len() == 1 {
        nodes[steps[0]] == node
    } else {
        &&& !nodes[steps[0]].ignored
        &&& leads_to(nodes[steps[0]].children, steps.drop_first(), node)
    }
}

proof fn ignored_in_is_reached(node: NodeView)
    ensures
        forall|path: PathView| #[trigger]
            candidate_model::ignored_in(node).contains(path) <==> exists|steps: Seq<int>, found: NodeView|
                #[trigger] leads_to(seq![node], steps, found) && found.ignored && found.path == path,
    decreases node, 0nat,
{
    let one = seq![node];
    let list = candidate_model::ignored_in(node);
    if !node.ignored {
        ignored_among_is_reached(node.children);
        assert(list == candidate_model::ignored_among(node.children));
    }
    assert forall|path: PathView| #[trigger] list.contains(path) <==> exists|
        steps: Seq<int>,
        found: NodeView,
    |
        #[trigger] leads_to(one, steps, found) && found.ignored && found.path == path by {
        if list.contains(path) {
            if node.ignored {
                assert(list[0] == path);
                assert(leads_to(one, seq![0], node));
            } else {
                assert(candidate_model::ignored_among(node.children).contains(path));
                let (steps, found) = choose|steps: Seq<int>, found: NodeView|
                    #[trigger] leads_to(node.children, steps, found) && found.ignored && found.path
                        == path;
                let more = seq![0] + steps;
                assert(more.drop_first() =~= steps);
                assert(leads_to(one, more, found));
            }
        }
        if exists|steps: Seq<int>, found: NodeView|
            #[trigger] leads_to(one, steps, found) && found.ignored && found.path == path {
            let (steps, found) = choose|steps: Seq<int>, found: NodeView|
                #[trigger] leads_to(one, steps, found) && found.ignored && found.path == path;
            assert(steps[0] == 0);
            if steps.len() == 1 {
                assert(list[0] == path);
            } else {
                assert(leads_to(node.children, steps.drop_first(), found));
                assert(candidate_model::ignored_among(node.children).contains(path));
            }
        }
    }
}

proof fn ignored_among_is_reached(nodes: Seq<NodeView>)
    ensures
        forall|path: PathView| #[trigger]
            candidate_model::ignored_among(nodes).contains(path) <==> exists|
                steps: Seq<int>,
                found: NodeView,
            |
                #[trigger] leads_to(nodes, steps, found) && found.ignored && found.path == path,
    decreases nodes, 1nat,
{
    let list = candidate_model::ignored_among(nodes);
    if nodes.len() > 0 {
        let last = nodes.last();
        let earlier = nodes.drop_last();
        let front = candidate_model::ignored_among(earlier);
        let back = candidate_model::ignored_in(last);
        ignored_among_is_reached(earlier);
        ignored_in_is_reached(last);
        assert(list == front + back);
        assert forall|path: PathView| #[trigger] list.contains(path) <==> exists|
            steps: Seq<int>,
            found: NodeView,
        |
            #[trigger] leads_to(nodes, steps, found) && found.ignored && found.path == path by {
            assert(list.contains(path) <==> front.contains(path) || back.contains(path)) by {
                if front.contains(path) {
                    let i = choose|i: int| 0 <= i < front.len() && front[i] == path;
                    assert(list[i] == path);
                }
                if back.contains(path) {
                    let i = choose|i: int| 0 <= i < back.len() && back[i] == path;
                    assert(list[front.len() + i] == path);
                }
            }
            if front.contains(path) {
                let (steps, found) = choose|steps: Seq<int>, found: NodeView|
                    #[trigger] leads_to(earlier, steps, found) && found.ignored && found.path
                        == path;
                assert(earlier[steps[0]] == nodes[steps[0]]);
                assert(leads_to(nodes, steps, found));
            }
            if back.contains(path) {
                let (steps, found) = choose|steps: Seq<int>, found: NodeView|
                    #[trigger] leads_to(seq![last], steps, found) && found.ignored && found.path
                        == path;
                let moved = steps.update(0, nodes.len() - 1);
                assert(steps[0] == 0);
                assert(moved.drop_first() =~= steps.drop_first());
                assert(leads_to(nodes, moved, found));
            }
            if exists|steps: Seq<int>, found: NodeView|
                #[trigger] leads_to(nodes, steps, found) && found.ignored && found.path == path {
                let (steps, found) = choose|steps: Seq<int>, found: NodeView|
                    #[trigger] leads_to(nodes, steps, found) && found.ignored && found.path == path;
                if steps[0] < nodes.len() - 1 {
                    assert(earlier[steps[0]] == nodes[steps[0]]);
                    assert(leads_to(earlier, steps, found));
                } else {
                    let moved = steps.update(0, 0);
                    assert(moved.drop_first() =~= steps.drop_first());
                    assert(leads_to(seq![last], moved, found));
                }
            }
        }
    }
}

/// The ignored paths of a scan are those of its ignored nodes, wherever they lie in the trees, but
/// for those inside another ignored node.
pub proof fn every_ignored_node_is_listed(nodes: Seq<NodeView>, path: PathView)
    ensures
        candidate_model::ignored_among(nodes).contains(path) <==> exists|
            steps: Seq<int>,
            found: NodeView,
        |
            #[trigger] leads_to(nodes, steps, found) && found.ignored && found.path == path,
{
    ignored_among_is_reached(nodes);
}

impl SearchView {
    /// What a search does with a measurement that has ended: there is one more candidate, with the
    /// path and the size that were measured, or the search ends where the size does not fit a number.
    /// A scan that cannot go on ends the search in the same way.
    pub proof fn measured_paths_become_candidates(
        self,
        source: SourceView,
        path: PathView,
        walk: MeasureView,
        scan: WalkView,
    )
        ensures
            walk.stage is Overflow ==> self.measured(source, path, walk).task is Overflow,
            scan.stage is Overflow ==> self.scanning(scan).task is Overflow,
            walk.stage is Done ==> {
                let candidate = candidate_model::candidate(source.preset(), path, walk.total);
                let found = SearchView { candidates: self.candidates.push(candidate), ..self };
                &&& candidate.path == path
                &&& candidate.size == walk.total
                &&& match source {
                    SourceView::Tour(preset, tour) => {
                        &&& candidate.preset == preset
                        &&& self.measured(source, path, walk) == found.toured(preset, tour)
                    },
                    SourceView::Ignored(list) => {
                        &&& candidate.preset == CleanupPreset::Gitignored
                        &&& self.measured(source, path, walk) == found.collecting(list)
                    },
                }
            },
    {
    }
}

/// Candidates are listed by size, the largest first, and those of the same size by path. All that
/// were found are listed and nothing else.
pub proof fn largest_candidates_come_first(found: Seq<CandidateView>, listed: Seq<CandidateView>)
    requires
        sorting::is_sorted_from::<CleanupCandidate>(found, listed),
    ensures
        listed.len() == found.len(),
        forall|candidate: CandidateView| found.contains(candidate) <==> listed.contains(candidate),
        forall|i: int, j: int|
            #![trigger listed[i], listed[j]]
            0 <= i < j < listed.len() ==> listed[i].size > listed[j].size || (listed[i].size
                == listed[j].size && order::parts_order(listed[j].path.parts, listed[i].path.parts)
                != Order::Less),
{
    sorting::sorting_orders::<CleanupCandidate>(found, listed);
    assert forall|i: int, j: int|
        #![trigger listed[i], listed[j]]
        0 <= i < j < listed.len() implies listed[i].size > listed[j].size || (listed[i].size
        == listed[j].size && order::parts_order(listed[j].path.parts, listed[i].path.parts)
        != Order::Less) by {
        assert(CleanupCandidate::placed(listed[i], listed[j]) != Order::Greater);
        order::parts_order_is_antisymmetric(listed[i].path.parts, listed[j].path.parts);
    }
}

} // verus!
