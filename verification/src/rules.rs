//! Ignore rules: the `.gitignore` files on the way down to a path, and what they say about it.

use crate::paths;
use crate::text;
use crate::text_laws;
use ignore::gitignore::{Gitignore, GitignoreBuilder};
use std::path::PathBuf;
use vstd::prelude::*;

verus! {

#[verifier::external_type_specification]
#[verifier::external_body]
pub struct ExGitignore(ignore::gitignore::Gitignore);

#[verifier::external_type_specification]
#[verifier::external_body]
pub struct ExGitignoreBuilder(ignore::gitignore::GitignoreBuilder);

/// Whether a builder holds what a new builder for `root` holds once it was given `lines`.
pub uninterp spec fn builder_holds(
    builder: GitignoreBuilder,
    root: Seq<u8>,
    lines: Seq<Seq<char>>,
) -> bool;

/// Whether a matcher holds the rules that `lines` spell for the directory `root`.
pub uninterp spec fn matcher_holds(
    matcher: Gitignore,
    root: Seq<u8>,
    lines: Seq<Seq<char>>,
) -> bool;

/// Whether `GitignoreBuilder::build` accepts the rules that `lines` spell.
pub uninterp spec fn rules_build(lines: Seq<Seq<char>>) -> bool;

/// What `Gitignore::matched` finds for a path under the rules that `lines` spell for `root`: that it
/// is ignored (`Some(true)`), that it is kept (`Some(false)`), or nothing.
pub uninterp spec fn rule_verdict(
    root: Seq<u8>,
    lines: Seq<Seq<char>>,
    path: Seq<u8>,
    is_dir: bool,
) -> Option<bool>;

/// Calls `GitignoreBuilder::new`. Claimed of it: the builder is one for `root` that was given no
/// line yet.
#[verifier::external_body]
fn new_builder(root: &PathBuf) -> (builder: GitignoreBuilder)
    ensures
        builder_holds(builder, paths::path_bytes(*root), Seq::empty()),
{
    GitignoreBuilder::new(root)
}

/// Calls `GitignoreBuilder::add_line`, whose complaint about a malformed line is dropped. Claimed of
/// it: the builder is then one that was given this line last.
#[verifier::external_body]
fn add_line(builder: &mut GitignoreBuilder, line: &String)
    ensures
        forall|root: Seq<u8>, lines: Seq<Seq<char>>|
            builder_holds(*old(builder), root, lines) ==> #[trigger] builder_holds(
                *final(builder),
                root,
                lines.push(line@),
            ),
{
    let _ = builder.add_line(None, line);
}

/// Calls `GitignoreBuilder::build`. Claimed of it: whether it succeeds depends on the lines alone,
/// and the matcher holds the rules that the builder was given.
#[verifier::external_body]
fn build(builder: &GitignoreBuilder) -> (matcher: Option<Gitignore>)
    ensures
        forall|root: Seq<u8>, lines: Seq<Seq<char>>| #[trigger]
            builder_holds(*builder, root, lines) ==> {
                &&& matcher is Some <==> rules_build(lines)
                &&& matcher matches Some(m) ==> matcher_holds(m, root, lines)
            },
{
    builder.build().ok()
}

/// Calls `Gitignore::matched`. Claimed of it: the finding depends on nothing but the rules, the path
/// and whether it is a directory.
#[verifier::external_body]
fn matched(matcher: &Gitignore, path: &PathBuf, is_dir: bool) -> (verdict: Option<bool>)
    ensures
        forall|root: Seq<u8>, lines: Seq<Seq<char>>| #[trigger]
            matcher_holds(*matcher, root, lines) ==> verdict == rule_verdict(
                root,
                lines,
                paths::path_bytes(*path),
                is_dir,
            ),
{
    match matcher.matched(path, is_dir) {
        ignore::Match::None => None,
        ignore::Match::Ignore(_) => Some(true),
        ignore::Match::Whitelist(_) => Some(false),
    }
}

/// What was found in the place of a directory's `.gitignore`.
pub enum IgnoreFile {
    /// There is no such file.
    Missing,
    /// There is one that cannot be read.
    Unreadable,
    /// There is one with these bytes.
    Text(Vec<u8>),
    /// There is one that could be read no further than these bytes.
    Cut(Vec<u8>),
}

impl IgnoreFile {
    /// The lines that the file gives, if there is a file. One that cannot be read gives none, and one
    /// that could not be read to its end those that were read whole.
    pub open spec fn lines(self) -> Option<Seq<Seq<char>>> {
        match self {
            IgnoreFile::Missing => None,
            IgnoreFile::Unreadable => Some(Seq::empty()),
            IgnoreFile::Text(bytes) => Some(text::rule_lines(bytes@)),
            IgnoreFile::Cut(bytes) => Some(text::rule_lines(text::whole_lines(bytes@))),
        }
    }
}

/// The rules of one ignore file: the directory that it lies in and its lines.
pub struct RuleView {
    pub root: Seq<u8>,
    pub lines: Seq<Seq<char>>,
}

impl RuleView {
    pub open spec fn verdict(self, path: Seq<u8>, is_dir: bool) -> Option<bool> {
        rule_verdict(self.root, self.lines, path, is_dir)
    }
}

/// The rules of one ignore file, ready to be matched.
pub struct RuleSet {
    matcher: Gitignore,
    root: Ghost<Seq<u8>>,
    lines: Ghost<Seq<Seq<char>>>,
}

impl View for RuleSet {
    type V = RuleView;

    closed spec fn view(&self) -> RuleView {
        RuleView { root: self.root@, lines: self.lines@ }
    }
}

impl RuleSet {
    pub closed spec fn wf(self) -> bool {
        matcher_holds(self.matcher, self.root@, self.lines@)
    }
}

pub open spec fn rule_views(rules: Seq<RuleSet>) -> Seq<RuleView> {
    Seq::new(rules.len(), |i: int| rules[i]@)
}

pub open spec fn all_wf(rules: Seq<RuleSet>) -> bool {
    forall|i: int| 0 <= i < rules.len() ==> (#[trigger] rules[i]).wf()
}

/// The rules in force inside the directory `root` whose ignore file gives `lines`, where `rules` are
/// in force around it. A file whose rules cannot be built changes nothing.
pub open spec fn rules_inside(
    rules: Seq<RuleView>,
    root: Seq<u8>,
    lines: Option<Seq<Seq<char>>>,
) -> Seq<RuleView> {
    match lines {
        Some(lines) if rules_build(lines) => rules.push(RuleView { root, lines }),
        _ => rules,
    }
}

fn compile(root: &PathBuf, lines: &Vec<String>) -> (rules: Option<RuleSet>)
    ensures
        rules is Some <==> rules_build(text::texts(lines@)),
        rules matches Some(r) ==> r.wf() && r@ == (RuleView {
            root: paths::path_bytes(*root),
            lines: text::texts(lines@),
        }),
{
    let mut builder = new_builder(root);
    let ghost at = paths::path_bytes(*root);
    let ghost all = text::texts(lines@);
    let mut i: usize = 0;
    assert(all.take(0) =~= Seq::<Seq<char>>::empty());
    while i < lines.len()
        invariant
            i <= lines@.len(),
            all == text::texts(lines@),
            builder_holds(builder, at, all.take(i as int)),
        decreases lines@.len() - i,
    {
        add_line(&mut builder, &lines[i]);
        assert(all.take(i as int).push(lines@[i as int]@) =~= all.take(i + 1));
        i = i + 1;
    }
    assert(all.take(i as int) =~= all);
    match build(&builder) {
        Some(matcher) => Some(RuleSet { matcher, root: Ghost(at), lines: Ghost(all) }),
        None => None,
    }
}

/// Adds the rules of the ignore file found in `path` to those in force around it.
pub fn append_gitignore(path: &PathBuf, file: IgnoreFile, rules: &mut Vec<RuleSet>)
    requires
        all_wf(old(rules)@),
    ensures
        all_wf(final(rules)@),
        rule_views(final(rules)@) == rules_inside(
            rule_views(old(rules)@),
            paths::path_bytes(*path),
            file.lines(),
        ),
        final(rules)@.take(old(rules)@.len() as int) == old(rules)@,
        file is Missing ==> final(rules)@ == old(rules)@,
        file matches IgnoreFile::Text(bytes) ==> if rules_build(text::rule_lines(bytes@)) {
            rule_views(final(rules)@) == rule_views(old(rules)@).push(
                RuleView { root: paths::path_bytes(*path), lines: text::rule_lines(bytes@) },
            )
        } else {
            rule_views(final(rules)@) == rule_views(old(rules)@)
        },
{
    let lines: Vec<String> = match file {
        IgnoreFile::Missing => {
            assert(rules@.take(rules@.len() as int) =~= rules@);
            return;
        },
        IgnoreFile::Unreadable => Vec::new(),
        IgnoreFile::Text(bytes) => text::read_rule_lines(&bytes),
        IgnoreFile::Cut(bytes) => text::read_rule_lines(&text::keep_whole_lines(bytes)),
    };
    let ghost before = rules@;
    assert(file is Unreadable ==> text::texts(lines@) =~= Seq::<Seq<char>>::empty());
    match compile(path, &lines) {
        Some(set) => {
            rules.push(set);
            assert(rule_views(rules@) =~= rule_views(before).push(set@));
            assert(rules@.take(before.len() as int) =~= before);
        },
        None => {
            assert(rules@.take(rules@.len() as int) =~= rules@);
        },
    }
}

/// What a list of verdicts, outermost rules first, comes to: the innermost rules that have an
/// opinion decide, and a path that no rules speak of is kept.
pub open spec fn last_opinion(verdicts: Seq<Option<bool>>) -> bool
    decreases verdicts.len(),
{
    if verdicts.len() == 0 {
        false
    } else {
        match verdicts.last() {
            Some(ignored) => ignored,
            None => last_opinion(verdicts.drop_last()),
        }
    }
}

pub open spec fn verdicts_of(rules: Seq<RuleView>, path: Seq<u8>, is_dir: bool) -> Seq<Option<bool>> {
    Seq::new(rules.len(), |i: int| rules[i].verdict(path, is_dir))
}

/// Whether the rules in force ignore a path.
pub open spec fn ignored_by(rules: Seq<RuleView>, path: Seq<u8>, is_dir: bool) -> bool {
    last_opinion(verdicts_of(rules, path, is_dir))
}

/// Decides by the verdicts of the rules in force, outermost first.
pub fn decide(verdicts: &Vec<Option<bool>>) -> (ignored: bool)
    ensures
        ignored == last_opinion(verdicts@),
{
    let mut i: usize = verdicts.len();
    assert(verdicts@.take(i as int) =~= verdicts@);
    while i > 0
        invariant
            i <= verdicts@.len(),
            last_opinion(verdicts@) == last_opinion(verdicts@.take(i as int)),
        decreases i,
    {
        i = i - 1;
        assert(verdicts@.take(i + 1).drop_last() =~= verdicts@.take(i as int));
        assert(verdicts@.take(i + 1).last() == verdicts@[i as int]);
        if let Some(ignored) = verdicts[i] {
            return ignored;
        }
    }
    false
}

/// Whether the rules in force ignore a path.
pub fn is_gitignored(path: &PathBuf, is_dir: bool, rules: &Vec<RuleSet>) -> (ignored: bool)
    requires
        all_wf(rules@),
    ensures
        ignored == ignored_by(rule_views(rules@), paths::path_bytes(*path), is_dir),
{
    let mut verdicts: Vec<Option<bool>> = Vec::new();
    let ghost all = verdicts_of(rule_views(rules@), paths::path_bytes(*path), is_dir);
    let mut i: usize = 0;
    while i < rules.len()
        invariant
            all_wf(rules@),
            i <= rules@.len(),
            all == verdicts_of(rule_views(rules@), paths::path_bytes(*path), is_dir),
            verdicts@ == all.take(i as int),
        decreases rules@.len() - i,
    {
        assert(rules@[i as int].wf());
        let verdict = matched(&rules[i].matcher, path, is_dir);
        verdicts.push(verdict);
        assert(verdicts@ =~= all.take(i + 1));
        i = i + 1;
    }
    assert(verdicts@ =~= all);
    decide(&verdicts)
}

/// A path is ignored exactly where the innermost rules that speak of it ignore it.
pub proof fn innermost_opinion_decides(rules: Seq<RuleView>, path: Seq<u8>, is_dir: bool)
    ensures
        ignored_by(rules, path, is_dir) <==> exists|i: int|
            #![trigger rules[i]]
            0 <= i < rules.len() && rule_verdict(rules[i].root, rules[i].lines, path, is_dir)
                == Some(true) && forall|j: int|
                i < j < rules.len() ==> rule_verdict(
                    (#[trigger] rules[j]).root,
                    rules[j].lines,
                    path,
                    is_dir,
                ) is None,
    decreases rules.len(),
{
    if rules.len() > 0 {
        let outer = rules.drop_last();
        let inner = rules.last();
        let n = outer.len() as int;
        assert(rules =~= outer.push(inner));
        inner_rules_overrule(outer, inner, path, is_dir);
        innermost_opinion_decides(outer, path, is_dir);
        assert(rules[n] == inner);
        assert(forall|i: int| 0 <= i < n ==> outer[i] == rules[i]);
        if ignored_by(rules, path, is_dir) && inner.verdict(path, is_dir) is None {
            let i = choose|i: int|
                #![trigger outer[i]]
                0 <= i < outer.len() && rule_verdict(outer[i].root, outer[i].lines, path, is_dir)
                    == Some(true) && forall|j: int|
                    i < j < outer.len() ==> rule_verdict(
                        (#[trigger] outer[j]).root,
                        outer[j].lines,
                        path,
                        is_dir,
                    ) is None;
            assert forall|j: int| i < j < rules.len() implies rule_verdict(
                (#[trigger] rules[j]).root,
                rules[j].lines,
                path,
                is_dir,
            ) is None by {
                if j < n {
                    assert(outer[j] == rules[j]);
                }
            }
            assert(rules[i] == outer[i]);
        }
        if exists|i: int|
            #![trigger rules[i]]
            0 <= i < rules.len() && rule_verdict(rules[i].root, rules[i].lines, path, is_dir)
                == Some(true) && forall|j: int|
                i < j < rules.len() ==> rule_verdict(
                    (#[trigger] rules[j]).root,
                    rules[j].lines,
                    path,
                    is_dir,
                ) is None {
            let i = choose|i: int|
                #![trigger rules[i]]
                0 <= i < rules.len() && rule_verdict(rules[i].root, rules[i].lines, path, is_dir)
                    == Some(true) && forall|j: int|
                    i < j < rules.len() ==> rule_verdict(
                        (#[trigger] rules[j]).root,
                        rules[j].lines,
                        path,
                        is_dir,
                    ) is None;
            if i < n {
                assert(rule_verdict(rules[n].root, rules[n].lines, path, is_dir) is None);
                assert(outer[i] == rules[i]);
                assert forall|j: int| i < j < outer.len() implies rule_verdict(
                    (#[trigger] outer[j]).root,
                    outer[j].lines,
                    path,
                    is_dir,
                ) is None by {
                    assert(outer[j] == rules[j]);
                }
            }
        }
    }
}

/// The ignore file of a directory adds its lines, all of them and for that directory, to the rules in
/// force around it, where rules can be made of them. Without one nothing is added.
pub proof fn ignore_file_adds_its_lines(rules: Seq<RuleView>, root: Seq<u8>, lines: Seq<Seq<char>>)
    ensures
        rules_inside(rules, root, None) == rules,
        rules_build(lines) ==> rules_inside(rules, root, Some(lines)) == rules.push(
            RuleView { root, lines },
        ),
        !rules_build(lines) ==> rules_inside(rules, root, Some(lines)) == rules,
{
}

/// The lines that an ignore file gives: those that its bytes spell, and of one that could be read
/// only in part those whose line feed was read. One that cannot be read gives none.
pub proof fn ignore_file_gives_its_lines(
    bytes: Vec<u8>,
    ended: Seq<Seq<u8>>,
    rest: Seq<u8>,
)
    requires
        text_laws::are_lines(ended, rest),
        bytes@ == text_laws::spelled(ended, rest),
    ensures
        IgnoreFile::Missing.lines() is None,
        IgnoreFile::Unreadable.lines() == Some(Seq::<Seq<char>>::empty()),
        IgnoreFile::Text(bytes).lines() == Some(text::rule_lines(bytes@)),
        IgnoreFile::Cut(bytes).lines() == Some(
            text::rule_lines(text_laws::spelled(ended, Seq::empty())),
        ),
{
    text_laws::ended_lines_are_kept(ended, rest);
}

/// The rules of a file with an opinion overrule all that the files around it say.
pub proof fn inner_rules_overrule(rules: Seq<RuleView>, inner: RuleView, path: Seq<u8>, is_dir: bool)
    ensures
        inner.verdict(path, is_dir) matches Some(ignored) ==> ignored_by(
            rules.push(inner),
            path,
            is_dir,
        ) == ignored,
        inner.verdict(path, is_dir) is None ==> ignored_by(rules.push(inner), path, is_dir)
            == ignored_by(rules, path, is_dir),
{
    let verdicts = verdicts_of(rules.push(inner), path, is_dir);
    assert(verdicts.drop_last() =~= verdicts_of(rules, path, is_dir));
}

} // verus!
