//! The parts that walks are built from.

use kuntu_scan::clean::{planned_size, DeletionRequest};
use kuntu_scan::control::{ScanControl, ScanProgress};
use kuntu_scan::dir_walk::{DirFlags, DirWalk, TourRequest};
use kuntu_scan::git::uncommitted_entries;
use kuntu_scan::metadata::{
    allocated_size, effective_metadata, inode_key, mark_dir_visited, unique_allocated_size,
    FileKind, Identity, Lookup, Metadata, SeenInodes, Usage,
};
use kuntu_scan::order::{order_bytes, order_parts, Order};
use kuntu_scan::path_set::PathSet;
use kuntu_scan::paths::{display_name, file_name, is_hidden, with_prefix, Part, PathPrefix, NAME};
use kuntu_scan::rules::{append_gitignore, decide, is_gitignored, IgnoreFile, RuleSet};
use kuntu_scan::scanner::total_size;
use kuntu_scan::text::{count_filled_lines, keep_whole_lines, read_rule_lines, split_lines};
use kuntu_scan::world::DirItem;
use kuntu_scan::{
    build_removal_plan, execute_removal_plan, CandidateOptions, CleanupCandidate, CleanupPreset,
    RemovalEntry, RemovalOutcome, RemovalPlan, ScanNode,
};
use std::path::PathBuf;

fn path(text: &str) -> PathBuf {
    PathBuf::from(text)
}

// Text.

#[test]
fn lines_end_at_line_feeds() {
    assert_eq!(split_lines(&b"".to_vec()), Vec::<Vec<u8>>::new());
    assert_eq!(split_lines(&b"\n".to_vec()), vec![b"".to_vec()]);
    assert_eq!(
        split_lines(&b"a\r\nb\r\n\nc\r".to_vec()),
        vec![b"a".to_vec(), b"b".to_vec(), b"".to_vec(), b"c\r".to_vec()]
    );
}

#[test]
fn rule_lines_lose_the_byte_order_mark_and_stop_at_bad_text() {
    assert_eq!(
        read_rule_lines(&"\u{feff}\u{feff}a\n\u{feff}b\n".as_bytes().to_vec()),
        vec!["a".to_string(), "\u{feff}b".to_string()]
    );
    assert_eq!(
        read_rule_lines(&b"one\ntwo\nth\xffree\nfour\n".to_vec()),
        vec!["one".to_string(), "two".to_string()]
    );
}

#[test]
fn lines_of_white_space_do_not_count() {
    let count = |text: &str| count_filled_lines(&text.as_bytes().to_vec());
    assert_eq!(count(""), 0);
    assert_eq!(count("a"), 1);
    assert_eq!(count("a\nb\n"), 2);
    assert_eq!(count(" \n\t\r\n\u{3000}\n x \n\n"), 1);
    assert_eq!(count_filled_lines(&b"\xff\n \na\xe4\r\n\r".to_vec()), 2);
}

#[test]
fn a_status_report_counts_its_changes() {
    assert_eq!(uncommitted_entries(Some(b"?? a\n M b\nA  c\n".to_vec())), Some(3));
    assert_eq!(uncommitted_entries(Some(b"".to_vec())), Some(0));
    assert_eq!(uncommitted_entries(Some(b"?? \xff\n M b\n".to_vec())), Some(2));
    assert_eq!(uncommitted_entries(Some(vec![b'a', 0xff])), Some(1));
    assert_eq!(uncommitted_entries(None), None);
}

// Paths.

#[test]
fn names_are_the_last_ordinary_component() {
    assert_eq!(file_name(&path("/a/b")), Some(b"b".to_vec()));
    assert_eq!(file_name(&path("a/b/")), Some(b"b".to_vec()));
    assert_eq!(file_name(&path("a/.")), Some(b"a".to_vec()));
    assert_eq!(file_name(&path("a/..")), None);
    assert_eq!(file_name(&path("/")), None);
    assert_eq!(file_name(&path("")), None);
    assert_eq!(file_name(&path(".")), None);
}

#[test]
fn hidden_names_start_with_a_dot() {
    assert!(is_hidden(&path("/a/.git")));
    assert!(is_hidden(&path(".a")));
    assert!(!is_hidden(&path("/.a/b")));
    assert!(!is_hidden(&path("..")));
    assert!(!is_hidden(&path(".")));
    assert!(!is_hidden(&path("a.b")));
}

#[test]
fn paths_are_shown_by_name_or_whole() {
    assert_eq!(display_name(&path("/a/b\u{fc}"), false), "b\u{fc}");
    assert_eq!(display_name(&path("/a/b\u{fc}"), true), "/a/b\u{fc}");
    assert_eq!(display_name(&path("a/.."), false), "a/..");
    assert_eq!(display_name(&path("/"), false), "/");
}

#[test]
fn bytes_are_ordered_as_in_a_dictionary() {
    assert_eq!(order_bytes(&b"".to_vec(), &b"a".to_vec()), Order::Less);
    assert_eq!(order_bytes(&b"ab".to_vec(), &b"a".to_vec()), Order::Greater);
    assert_eq!(order_bytes(&b"ab".to_vec(), &b"ab".to_vec()), Order::Same);
    assert_eq!(order_bytes(&b"\xff".to_vec(), &b"a".to_vec()), Order::Greater);
}

#[test]
fn paths_with_the_same_components_are_one_member() {
    let mut set = PathSet::new();
    assert!(set.insert(&path("/a/b")));
    assert!(!set.insert(&path("/a//b/")));
    assert!(!set.insert(&path("/a/./b")));
    assert!(set.insert(&path("a/b")));
    assert!(set.insert(&path("/a/../b")));
    assert!(set.insert(&path("/a/b/c")));
    assert!(set.insert(&path("/a")));
    assert!(!set.insert(&path("/a/b/c")));
    assert!(!set.insert(&path("/a")));
}

/// The parts of a path that starts with a prefix and goes on at the root with one name.
fn prefixed(form: u8, first: &str, second: &str, name: &str) -> Vec<Part> {
    let prefix = PathPrefix { form, first: first.into(), second: second.into() };
    let steps = vec![
        Part { rank: 6, text: Vec::new() },
        Part { rank: 7, text: Vec::new() },
        Part { rank: NAME, text: name.into() },
    ];
    with_prefix(Some(prefix), steps)
}

#[test]
fn paths_with_prefixes_are_ordered_by_what_the_prefixes_say() {
    let drive = prefixed(5, "C", "", "b");
    assert_eq!(order_parts(&drive, &prefixed(5, "C", "", "b")), Order::Same);
    assert_eq!(order_parts(&drive, &prefixed(5, "C", "", "c")), Order::Less);
    assert_eq!(order_parts(&drive, &prefixed(5, "D", "", "a")), Order::Less);
    // The form decides before the texts do, the server before the share, and the share before the
    // names below it.
    assert_eq!(order_parts(&prefixed(4, "z", "z", "z"), &drive), Order::Less);
    assert_eq!(order_parts(&prefixed(4, "a", "c", "a"), &prefixed(4, "ab", "b", "a")), Order::Less);
    assert_eq!(order_parts(&prefixed(4, "a", "b", "z"), &prefixed(4, "a", "c", "a")), Order::Less);
    // A path without a prefix comes after all of them.
    let rooted = vec![
        Part { rank: 7, text: Vec::new() },
        Part { rank: NAME, text: b"a".to_vec() },
    ];
    assert_eq!(order_parts(&with_prefix(None, rooted), &drive), Order::Greater);
}

// Ignore rules.

fn rules(files: &[(&str, &str)]) -> Vec<RuleSet> {
    let mut rules: Vec<RuleSet> = Vec::new();
    for (root, text) in files {
        append_gitignore(&path(root), IgnoreFile::Text(text.as_bytes().to_vec()), &mut rules);
    }
    rules
}

#[test]
fn rules_ignore_what_they_match() {
    let rules = rules(&[("/p", "out/\n*.log\n# a comment\n/top\n")]);
    assert!(is_gitignored(&path("/p/out"), true, &rules));
    assert!(!is_gitignored(&path("/p/out"), false, &rules));
    assert!(is_gitignored(&path("/p/sub/a.log"), false, &rules));
    assert!(is_gitignored(&path("/p/top"), false, &rules));
    assert!(!is_gitignored(&path("/p/sub/top"), false, &rules));
    assert!(!is_gitignored(&path("/p/a.txt"), false, &rules));
}

#[test]
fn rules_further_in_overrule_those_around_them() {
    let rules = rules(&[("/p", "*.log\n"), ("/p/sub", "!keep.log\n"), ("/p/sub/deep", "keep.*\n")]);
    assert_eq!(rules.len(), 3);
    assert!(is_gitignored(&path("/p/sub/deep/keep.log"), false, &rules));
    let two = rules.into_iter().take(2).collect::<Vec<_>>();
    assert!(!is_gitignored(&path("/p/sub/keep.log"), false, &two));
    assert!(is_gitignored(&path("/p/sub/other.log"), false, &two));
}

#[test]
fn the_last_opinion_decides() {
    assert!(!decide(&vec![]));
    assert!(!decide(&vec![None, None]));
    assert!(decide(&vec![Some(false), Some(true), None]));
    assert!(!decide(&vec![Some(true), None, Some(false)]));
}

#[test]
fn a_missing_ignore_file_adds_no_rules() {
    let mut rules: Vec<RuleSet> = Vec::new();
    append_gitignore(&path("/p"), IgnoreFile::Missing, &mut rules);
    assert_eq!(rules.len(), 0);
    append_gitignore(&path("/p"), IgnoreFile::Unreadable, &mut rules);
    assert_eq!(rules.len(), 1);
    assert!(!is_gitignored(&path("/p/a"), false, &rules));
}

#[test]
fn of_an_ignore_file_that_breaks_off_the_whole_lines_count() {
    let mut rules: Vec<RuleSet> = Vec::new();
    append_gitignore(&path("/p"), IgnoreFile::Cut(b"*.log\n*.t".to_vec()), &mut rules);
    assert!(is_gitignored(&path("/p/a.log"), false, &rules));
    assert!(!is_gitignored(&path("/p/a.t"), false, &rules));
    assert_eq!(keep_whole_lines(b"a\nb\nc".to_vec()), b"a\nb\n".to_vec());
    assert_eq!(keep_whole_lines(b"abc".to_vec()), b"".to_vec());
}

#[test]
fn malformed_lines_are_passed_over() {
    let rules = rules(&[("/p", "a{b\n*.tmp\n")]);
    assert_eq!(rules.len(), 1);
    assert!(is_gitignored(&path("/p/x.tmp"), false, &rules));
}

// Metadata.

fn meta(kind: FileKind, identity: Identity, usage: Usage) -> Metadata {
    Metadata { kind, identity, usage }
}

#[test]
fn sizes_are_blocks_or_lengths() {
    let size = |usage| allocated_size(&meta(FileKind::Other, Identity::Unknown, usage));
    assert_eq!(size(Usage::Blocks(3)), 1536);
    assert_eq!(size(Usage::Blocks(u64::MAX / 512)), u64::MAX - 511);
    assert_eq!(size(Usage::Blocks(u64::MAX / 512 + 1)), u64::MAX);
    assert_eq!(size(Usage::Length(77)), 77);
}

#[test]
fn files_are_told_apart_by_what_the_platform_gives() {
    let key = |kind, identity| inode_key(&meta(kind, identity, Usage::Length(0)));
    assert_eq!(key(FileKind::Directory, Identity::Inode { inode: 5, device: 9 }), Some((5, 9)));
    let index = Identity::FileIndex { high: 1, low: 2, volume: 3 };
    assert_eq!(key(FileKind::Other, index), Some((0x1_0000_0002, 3)));
    assert_eq!(key(FileKind::Directory, index), None);
    assert_eq!(key(FileKind::Other, Identity::Unknown), None);
}

#[test]
fn a_file_counts_once() {
    let mut seen = SeenInodes::new();
    let one = meta(FileKind::Other, Identity::Inode { inode: 1, device: 2 }, Usage::Blocks(1));
    let swapped = meta(FileKind::Other, Identity::Inode { inode: 2, device: 1 }, Usage::Blocks(1));
    assert_eq!(unique_allocated_size(&one, &mut seen), Some(512));
    assert_eq!(unique_allocated_size(&one, &mut seen), None);
    assert_eq!(unique_allocated_size(&swapped, &mut seen), Some(512));
    let nameless = meta(FileKind::Other, Identity::Unknown, Usage::Blocks(2));
    assert_eq!(unique_allocated_size(&nameless, &mut seen), Some(1024));
    assert_eq!(unique_allocated_size(&nameless, &mut seen), Some(1024));
}

#[test]
fn a_directory_is_new_once() {
    let mut seen = SeenInodes::new();
    let dir = meta(FileKind::Directory, Identity::Inode { inode: 1, device: 2 }, Usage::Blocks(1));
    assert!(mark_dir_visited(&dir, &mut seen));
    assert!(!mark_dir_visited(&dir, &mut seen));
    let nameless = meta(FileKind::Directory, Identity::Unknown, Usage::Blocks(1));
    assert!(mark_dir_visited(&nameless, &mut seen));
    assert!(mark_dir_visited(&nameless, &mut seen));
}

#[test]
fn a_link_counts_as_its_target_only_when_followed() {
    let link = meta(FileKind::Symlink, Identity::Unknown, Usage::Length(1));
    let dir = meta(FileKind::Directory, Identity::Unknown, Usage::Length(2));
    let found = Lookup { link: Some(link), target: Some(dir) };
    assert_eq!(effective_metadata(found, false), Some(link));
    assert_eq!(effective_metadata(found, true), Some(dir));
    let broken = Lookup { link: Some(link), target: None };
    assert_eq!(effective_metadata(broken, true), None);
    let plain = Lookup { link: Some(dir), target: None };
    assert_eq!(effective_metadata(plain, true), Some(dir));
    assert_eq!(effective_metadata(Lookup { link: None, target: Some(dir) }, true), None);
}

// Counters.

#[test]
fn counters_stay_at_the_largest_number() {
    let mut control = ScanControl::default();
    assert_eq!(
        control.progress(),
        ScanProgress { visited: 0, admitted: 0, completed: 0, bytes: 0 }
    );
    control.visit();
    control.record_admission();
    control.record_admission();
    control.complete();
    control.add_bytes(7);
    assert_eq!(
        control.progress(),
        ScanProgress { visited: 1, admitted: 2, completed: 1, bytes: 7 }
    );
    control.add_bytes(u64::MAX);
    assert_eq!(control.progress().bytes, u64::MAX);
}

#[test]
fn a_scan_stops_when_cancelled_or_late() {
    let mut control = ScanControl::default();
    assert!(!control.should_stop(None, u64::MAX));
    assert!(!control.should_stop(Some(5), 4));
    assert!(control.should_stop(Some(5), 5));
    assert!(!control.is_cancelled());
    control.cancel();
    assert!(control.is_cancelled());
    assert!(control.should_stop(None, 0));
}

// Tours.

#[test]
fn a_tour_asks_before_it_goes_in() {
    let flags = DirFlags { ignore_hidden: true, follow_symlinks: true, skip_git: true };
    let dir = |inode| Lookup {
        link: Some(meta(
            FileKind::Directory,
            Identity::Inode { inode, device: 1 },
            Usage::Blocks(0),
        )),
        target: None,
    };
    let entry = |at: &str| DirItem::Entry { path: path(at), kind: None };

    let tour = DirWalk::new(&vec![path("/.hidden"), path("/a"), path("/b")], flags);
    assert!(matches!(tour.request(), TourRequest::Lookup(at) if *at == path("/a")));
    let tour = tour.looked_up(dir(1));
    assert!(matches!(tour.request(), TourRequest::Decision(at) if *at == path("/a")));
    let tour = tour.decided(true);
    assert!(matches!(tour.request(), TourRequest::Listing(at) if *at == path("/a")));
    let tour = tour.listed(Some(vec![
        entry("/a/.git"),
        entry("/a/.x"),
        DirItem::Unreadable,
        entry("/a/file"),
        entry("/a/again"),
        entry("/a/c"),
    ]));
    assert!(matches!(tour.request(), TourRequest::Lookup(at) if *at == path("/a/file")));
    let file = meta(FileKind::Other, Identity::Inode { inode: 9, device: 1 }, Usage::Blocks(0));
    let tour = tour.looked_up(Lookup { link: Some(file), target: None });
    assert!(matches!(tour.request(), TourRequest::Lookup(at) if *at == path("/a/again")));
    let tour = tour.looked_up(dir(1));
    assert!(matches!(tour.request(), TourRequest::Lookup(at) if *at == path("/a/c")));
    let tour = tour.looked_up(dir(2)).decided(false);
    assert!(matches!(tour.request(), TourRequest::Lookup(at) if *at == path("/b")));
    let tour = tour.looked_up(Lookup { link: None, target: None });
    assert!(matches!(tour.request(), TourRequest::Done));
}

// Plans.

fn candidate(at: &str, size: u64) -> CleanupCandidate {
    CleanupCandidate {
        path: path(at),
        size,
        reason: "because".to_string(),
        preset: CleanupPreset::Node,
        ignored: false,
    }
}

#[test]
fn everything_is_looked_for_when_nothing_is_named() {
    let mut options = CandidateOptions {
        roots: vec![],
        presets: vec![],
        ignore_hidden: false,
        follow_symlinks: false,
    };
    assert_eq!(
        options.effective_presets(),
        vec![CleanupPreset::Node, CleanupPreset::Rust, CleanupPreset::Gitignored]
    );
    options.presets = vec![CleanupPreset::Rust, CleanupPreset::Rust];
    assert_eq!(options.effective_presets(), vec![CleanupPreset::Rust, CleanupPreset::Rust]);
}

#[test]
fn sizes_that_do_not_fit_cannot_be_planned() {
    assert_eq!(planned_size(&vec![]), Some(0));
    assert_eq!(planned_size(&vec![candidate("/a", u64::MAX)]), Some(u64::MAX));
    assert_eq!(planned_size(&vec![candidate("/a", u64::MAX), candidate("/b", 1)]), None);
    let node = |size| ScanNode {
        name: String::new(),
        path: path("/"),
        size,
        children: vec![],
        depth: 0,
        ignored: false,
        collapsed: false,
    };
    assert_eq!(total_size(&vec![node(1), node(2)]), Some(3));
    assert_eq!(total_size(&vec![node(u64::MAX), node(1)]), None);
}

#[test]
fn an_empty_plan_is_done_at_once() {
    let plan = build_removal_plan(vec![]);
    assert_eq!(plan.total_size, 0);
    let run = execute_removal_plan(&plan);
    assert!(matches!(run.request(), DeletionRequest::Done));
    let outcome = run.outcome();
    assert!(outcome.removed.is_empty() && outcome.errors.is_empty());
    assert_eq!(RemovalPlan::default().entries.len(), 0);
    assert_eq!(RemovalOutcome::default().bytes_removed, 0);
}

#[test]
fn removed_bytes_stay_at_the_largest_number() {
    let entry = |at: &str, size| RemovalEntry {
        path: path(at),
        size,
        reason: "because".to_string(),
        preset: CleanupPreset::Rust,
    };
    let plan = RemovalPlan {
        entries: vec![entry("/a", u64::MAX), entry("/b", 5)],
        total_size: 0,
        errors: vec![],
    };
    let run = execute_removal_plan(&plan);
    assert!(matches!(run.request(), DeletionRequest::Inspect(at) if *at == path("/a")));
    let run = run.inspected(Ok(FileKind::Directory));
    assert!(matches!(run.request(), DeletionRequest::RemoveTree(at) if *at == path("/a")));
    let run = run.removed(Ok(()));
    let run = run.inspected(Ok(FileKind::Other));
    assert!(matches!(run.request(), DeletionRequest::RemoveFile(at) if *at == path("/b")));
    let outcome = run.removed(Ok(())).outcome();
    assert_eq!(outcome.bytes_removed, u64::MAX);
    assert_eq!(outcome.removed.len(), 2);
}
