//! Whole walks, driven over a file system that is kept in memory.

use kuntu_scan::candidates::{CandidateRequest, CandidateSearch};
use kuntu_scan::clean::{planned_size, Deletion, DeletionRequest, RemovalRun};
use kuntu_scan::control::{ScanControl, ScanProgress};
use kuntu_scan::git::{RepoRequest, RepoSearch};
use kuntu_scan::measure::{measure_path_inner, MeasureRequest, MeasureWalk};
use kuntu_scan::metadata::{FileKind, Identity, Lookup, Metadata, Usage};
use kuntu_scan::rules::IgnoreFile;
use kuntu_scan::scanner::{scan_directory_cooperative, ScanOutcome, ScanRequest, ScanWalk};
use kuntu_scan::world::DirItem;
use kuntu_scan::{
    build_removal_plan, delete_path, execute_removal_plan, find_candidates, find_dirty_git_repos,
    measure_path, scan_directory, CandidateOptions, CleanupCandidate, CleanupPreset, DirtyGitRepo,
    DirtyGitRepoOptions, IgnoredMode, RemovalOutcome, ScanNode, ScanOptions,
};
use std::collections::BTreeMap;
use std::path::{Component, Path, PathBuf};

/// Something in the file system.
#[derive(Clone)]
struct Thing {
    kind: FileKind,
    inode: u64,
    blocks: u64,
    content: Vec<u8>,
    target: PathBuf,
}

/// A file system in memory.
struct Disk {
    things: BTreeMap<PathBuf, Thing>,
    next_inode: u64,
    /// What `git status --porcelain` prints, by repository. `None` says that it fails.
    status: BTreeMap<PathBuf, Option<Vec<u8>>>,
    /// Directories whose entries cannot be read.
    sealed: Vec<PathBuf>,
    /// Whether the system numbers its directories.
    numbers_directories: bool,
    /// Paths of which only the name can be had.
    veiled: Vec<PathBuf>,
    /// Paths that cannot be removed.
    stuck: Vec<PathBuf>,
}

impl Disk {
    fn new() -> Disk {
        let mut disk = Disk {
            things: BTreeMap::new(),
            next_inode: 1,
            status: BTreeMap::new(),
            sealed: Vec::new(),
            numbers_directories: true,
            veiled: Vec::new(),
            stuck: Vec::new(),
        };
        disk.put(Path::new("/"), FileKind::Directory, 8, b"", Path::new(""));
        disk
    }

    fn put(&mut self, path: &Path, kind: FileKind, blocks: u64, content: &[u8], target: &Path) {
        let inode = self.next_inode;
        self.next_inode += 1;
        self.things.insert(
            path.to_path_buf(),
            Thing {
                kind,
                inode,
                blocks,
                content: content.to_vec(),
                target: target.to_path_buf(),
            },
        );
    }

    /// Makes a directory of eight blocks, and those around it.
    fn dir(&mut self, path: &str) {
        let path = Path::new(path);
        let missing: Vec<PathBuf> = path
            .ancestors()
            .filter(|at| !self.things.contains_key(*at))
            .map(|at| at.to_path_buf())
            .collect();
        for at in missing.into_iter().rev() {
            self.put(&at, FileKind::Directory, 8, b"", Path::new(""));
        }
    }

    /// Makes a file of eight blocks.
    fn file(&mut self, path: &str, content: &[u8]) {
        self.sized(path, 8, content);
    }

    fn sized(&mut self, path: &str, blocks: u64, content: &[u8]) {
        self.put(Path::new(path), FileKind::Other, blocks, content, Path::new(""));
    }

    /// Makes a symbolic link that takes no blocks.
    fn link(&mut self, target: &str, path: &str) {
        self.put(Path::new(path), FileKind::Symlink, 0, b"", Path::new(target));
    }

    /// Gives a file a second name.
    fn hard_link(&mut self, old: &str, new: &str) {
        let thing = self.things[Path::new(old)].clone();
        self.things.insert(PathBuf::from(new), thing);
    }

    /// Where a path leads once the links on the way, and if asked the last one, are followed.
    fn resolve(&self, path: &Path, follow_last: bool) -> Option<PathBuf> {
        let mut steps = 0;
        let mut todo: Vec<String> = names(path);
        todo.reverse();
        let mut at = PathBuf::from("/");
        while let Some(name) = todo.pop() {
            at.push(&name);
            let thing = self.things.get(&at)?;
            if thing.kind == FileKind::Symlink && (follow_last || !todo.is_empty()) {
                steps += 1;
                if steps > 40 {
                    return None;
                }
                for name in names(&thing.target).into_iter().rev() {
                    todo.push(name);
                }
                at = PathBuf::from("/");
            }
        }
        if self.things.contains_key(&at) {
            Some(at)
        } else {
            None
        }
    }

    fn is_there(&self, path: &str) -> bool {
        self.resolve(Path::new(path), true).is_some()
    }

    fn metadata(&self, path: &Path, follow: bool) -> Option<Metadata> {
        if self.veiled.iter().any(|at| at == path) {
            return None;
        }
        let thing = &self.things[&self.resolve(path, follow)?];
        let numbered = self.numbers_directories || thing.kind != FileKind::Directory;
        Some(Metadata {
            kind: thing.kind,
            identity: if numbered {
                Identity::Inode { inode: thing.inode, device: 7 }
            } else {
                Identity::Unknown
            },
            usage: Usage::Blocks(thing.blocks),
        })
    }

    fn lookup(&self, path: &Path, follow: bool) -> Lookup {
        Lookup {
            link: self.metadata(path, false),
            target: if follow { self.metadata(path, true) } else { None },
        }
    }

    fn listing(&self, path: &Path) -> Option<Vec<DirItem>> {
        let real = self.resolve(path, true)?;
        if self.things[&real].kind != FileKind::Directory || self.sealed.contains(&real) {
            return None;
        }
        Some(
            self.things
                .iter()
                .filter(|(at, _)| at.parent() == Some(real.as_path()))
                .map(|(at, thing)| DirItem::Entry {
                    path: path.join(at.file_name().unwrap()),
                    kind: if self.veiled.contains(at) { None } else { Some(thing.kind) },
                })
                .collect(),
        )
    }

    fn ignore_file(&self, path: &Path) -> IgnoreFile {
        match self.resolve(&path.join(".gitignore"), true) {
            None => IgnoreFile::Missing,
            Some(real) => {
                if self.things[&real].kind == FileKind::Directory {
                    IgnoreFile::Unreadable
                } else {
                    IgnoreFile::Text(self.things[&real].content.clone())
                }
            }
        }
    }

    fn remove(&mut self, path: &Path) -> Result<(), String> {
        let real = self.resolve(path, false).ok_or("not found".to_string())?;
        if self.stuck.contains(&real) {
            return Err("permission denied".to_string());
        }
        self.things.retain(|at, _| !at.starts_with(&real));
        Ok(())
    }

    fn inspect(&self, path: &Path) -> Result<FileKind, String> {
        match self.metadata(path, false) {
            Some(meta) => Ok(meta.kind),
            None => Err("not found".to_string()),
        }
    }
}

fn names(path: &Path) -> Vec<String> {
    path.components()
        .filter_map(|component| match component {
            Component::Normal(name) => Some(name.to_str().unwrap().to_string()),
            _ => None,
        })
        .collect()
}

/// What a scan was last answered.
#[derive(Clone, Debug, PartialEq)]
enum Last {
    Begun,
    Signal,
    Lookup(PathBuf),
    Rules(PathBuf),
    Listing(PathBuf),
}

/// Drives a scan. `watch` sees each signal coming and says what it holds.
fn drive_scan(
    disk: &Disk,
    walk: ScanWalk,
    watch: &mut dyn FnMut(&Last, &ScanWalk) -> (bool, u64),
) -> Option<(ScanOutcome, ScanProgress)> {
    let mut walk = walk;
    let mut last = Last::Begun;
    loop {
        let (next, now) = match walk.request() {
            ScanRequest::Signal | ScanRequest::Count => {
                let (cancel, time) = watch(&last, &walk);
                (walk.signal(cancel, time), Last::Signal)
            }
            ScanRequest::Lookup { path, follow_symlinks } => {
                let path = path.clone();
                (walk.looked_up(disk.lookup(&path, follow_symlinks)), Last::Lookup(path))
            }
            ScanRequest::IgnoreFile(path) => {
                let path = path.clone();
                (walk.ignore_file(disk.ignore_file(&path)), Last::Rules(path))
            }
            ScanRequest::Listing(path) => {
                let path = path.clone();
                (walk.listed(disk.listing(&path)), Last::Listing(path))
            }
            ScanRequest::Ended => {
                let progress = walk.progress();
                return Some((walk.outcome(), progress));
            }
            ScanRequest::Overflow => return None,
        };
        walk = next;
        last = now;
    }
}

fn scan(disk: &Disk, options: ScanOptions) -> Vec<ScanNode> {
    let (outcome, _) = drive_scan(disk, scan_directory(options), &mut |_, _| (false, 0)).unwrap();
    outcome.into_roots()
}

fn drive_measure(disk: &Disk, walk: MeasureWalk) -> Option<u64> {
    let mut walk = walk;
    loop {
        walk = match walk.request() {
            MeasureRequest::Lookup { path, follow_symlinks } => {
                let lookup = disk.lookup(path, follow_symlinks);
                walk.looked_up(lookup)
            }
            MeasureRequest::Listing(path) => {
                let listing = disk.listing(path);
                walk.listed(listing)
            }
            MeasureRequest::Done(size) => return Some(size),
            MeasureRequest::Overflow => return None,
        };
    }
}

fn drive_candidates(disk: &Disk, search: CandidateSearch) -> Option<Vec<CleanupCandidate>> {
    let mut search = search;
    let mut answers = 0;
    loop {
        answers += 1;
        assert!(answers < 10_000, "the search does not come to an end");
        search = match search.request() {
            CandidateRequest::Lookup { path, follow_symlinks } => {
                let lookup = disk.lookup(path, follow_symlinks);
                search.looked_up(lookup)
            }
            CandidateRequest::Listing(path) => {
                let listing = disk.listing(path);
                search.listed(listing)
            }
            CandidateRequest::IgnoreFile(path) => {
                let file = disk.ignore_file(path);
                search.ignore_file(file)
            }
            CandidateRequest::Gate => search.pass(),
            CandidateRequest::Done => return Some(search.into_candidates()),
            CandidateRequest::Overflow => return None,
        };
    }
}

fn candidates(disk: &Disk, options: CandidateOptions) -> Vec<CleanupCandidate> {
    drive_candidates(disk, find_candidates(options)).unwrap()
}

fn drive_repos(disk: &Disk, search: RepoSearch) -> Vec<DirtyGitRepo> {
    let mut search = search;
    let mut answers = 0;
    loop {
        answers += 1;
        assert!(answers < 10_000, "the search does not come to an end");
        search = match search.request() {
            RepoRequest::Lookup { path, follow_symlinks } => {
                let lookup = disk.lookup(path, follow_symlinks);
                search.looked_up(lookup)
            }
            RepoRequest::HasGit(path) => {
                let has_git = disk.resolve(&path.join(".git"), true).is_some();
                search.git_entry(has_git)
            }
            RepoRequest::Status(path) => {
                let real = disk.resolve(path, true).unwrap();
                let report = disk.status.get(&real).cloned().flatten();
                search.status(report)
            }
            RepoRequest::Listing(path) => {
                let listing = disk.listing(path);
                search.listed(listing)
            }
            RepoRequest::Done => return search.into_repos(),
        };
    }
}

fn drive_removal(disk: &mut Disk, run: RemovalRun) -> RemovalOutcome {
    let mut run = run;
    loop {
        run = match run.request() {
            DeletionRequest::Inspect(path) => {
                let found = disk.inspect(path);
                run.inspected(found)
            }
            DeletionRequest::RemoveTree(path) | DeletionRequest::RemoveFile(path) => {
                let result = disk.remove(path);
                run.removed(result)
            }
            DeletionRequest::Done => return run.outcome(),
        };
    }
}

fn drive_deletion(disk: &mut Disk, deletion: Deletion<String>) -> Result<(), String> {
    let mut deletion = deletion;
    loop {
        deletion = match deletion.request() {
            DeletionRequest::Inspect(path) => {
                let found = disk.inspect(path);
                deletion.inspected(found)
            }
            DeletionRequest::RemoveTree(path) | DeletionRequest::RemoveFile(path) => {
                let result = disk.remove(path);
                deletion.removed(result)
            }
            DeletionRequest::Done => return deletion.result(),
        };
    }
}

fn options(root: &str) -> ScanOptions {
    ScanOptions {
        directories: vec![PathBuf::from(root)],
        ignore_hidden: false,
        full_path: false,
        respect_gitignore: false,
        ignored_mode: IgnoredMode::Exclude,
        follow_symlinks: false,
    }
}

fn look_for(root: &str, presets: Vec<CleanupPreset>, follow_symlinks: bool) -> CandidateOptions {
    CandidateOptions {
        roots: vec![PathBuf::from(root)],
        presets,
        ignore_hidden: false,
        follow_symlinks,
    }
}

fn assert_monotonic(before: ScanProgress, after: ScanProgress) {
    assert!(before.visited <= after.visited);
    assert!(before.admitted <= after.admitted);
    assert!(before.completed <= after.completed);
    assert!(before.bytes <= after.bytes);
}

// Searching for candidates and removing them.

#[test]
fn finds_cleanup_candidates_from_presets() {
    let mut disk = Disk::new();
    disk.dir("/candidates/app/node_modules/pkg");
    disk.dir("/candidates/app/target/debug");
    disk.dir("/candidates/app/ignored");
    disk.file("/candidates/app/.gitignore", b"ignored/\n*.log\n");
    disk.file("/candidates/app/node_modules/pkg/index.js", b"module.exports = 1\n");
    disk.file("/candidates/app/target/debug/app", b"binary\n");
    disk.file("/candidates/app/ignored/cache.bin", b"cache\n");
    disk.file("/candidates/app/debug.log", b"log\n");

    let candidates = candidates(&disk, look_for("/candidates/app", vec![], false));

    assert!(candidates
        .iter()
        .any(|candidate| candidate.path.ends_with("node_modules")));
    assert!(candidates
        .iter()
        .any(|candidate| candidate.path.ends_with("target")));
    assert!(candidates
        .iter()
        .any(|candidate| candidate.path.ends_with("ignored")));
    assert!(candidates
        .iter()
        .any(|candidate| candidate.path.ends_with("debug.log")));
    assert_eq!(candidates.len(), 4);
}

#[test]
fn removal_plan_is_dry_run_until_executed() {
    let mut disk = Disk::new();
    disk.dir("/removal/node_modules/pkg");
    disk.file("/removal/node_modules/pkg/index.js", b"module.exports = 1\n");

    let candidates = candidates(&disk, look_for("/removal", vec![CleanupPreset::Node], false));
    let plan = build_removal_plan(candidates);

    assert_eq!(plan.entries.len(), 1);
    assert!(disk.is_there("/removal/node_modules"));

    let run = execute_removal_plan(&plan);
    let outcome = drive_removal(&mut disk, run);

    assert_eq!(outcome.errors, Vec::<String>::new());
    assert_eq!(outcome.removed.len(), 1);
    assert!(!disk.is_there("/removal/node_modules"));
}

#[test]
fn deletes_an_arbitrary_file_or_directory_path() {
    let mut disk = Disk::new();
    disk.dir("/arbitrary-delete/folder/nested");
    disk.file("/arbitrary-delete/folder/nested/file.txt", b"delete me\n");

    drive_deletion(&mut disk, delete_path(PathBuf::from("/arbitrary-delete/folder"))).unwrap();

    assert!(!disk.is_there("/arbitrary-delete/folder"));
    assert!(disk.is_there("/arbitrary-delete"));
}

#[test]
fn symlinked_projects_are_skipped_unless_follow_symlinks_is_set() {
    // The linked project lies outside the searched root.
    let mut disk = Disk::new();
    disk.dir("/symlinks/store/real/node_modules/leftover");
    disk.dir("/symlinks/root/links");
    disk.file("/symlinks/store/real/package.json", b"{}");
    disk.file("/symlinks/store/real/node_modules/leftover/index.js", b"x\n");
    disk.link("/symlinks/store/real", "/symlinks/root/links/project");

    let skipped = candidates(&disk, look_for("/symlinks/root", vec![CleanupPreset::Node], false));
    assert!(skipped.is_empty());

    let followed = candidates(&disk, look_for("/symlinks/root", vec![CleanupPreset::Node], true));
    assert_eq!(followed.len(), 1);
    assert!(followed[0].path.starts_with("/symlinks/root/links"));
    assert!(followed[0].path.ends_with("node_modules"));
}

#[test]
fn symlink_cycles_do_not_hang_the_candidate_walk() {
    let mut disk = Disk::new();
    disk.dir("/cycle/app/node_modules/pkg");
    disk.link("/cycle/app", "/cycle/app/loop");

    let candidates = candidates(&disk, look_for("/cycle/app", vec![CleanupPreset::Node], true));

    assert_eq!(candidates.len(), 1);
    assert!(candidates[0].path.ends_with("node_modules"));
}

#[test]
fn candidates_carry_their_reason_and_size() {
    let mut disk = Disk::new();
    disk.dir("/app/node_modules/pkg");
    disk.sized("/app/node_modules/pkg/index.js", 16, b"");
    disk.dir("/app/target");
    disk.dir("/app/ignored");
    disk.sized("/app/ignored/cache.bin", 64, b"");
    disk.file("/app/.gitignore", b"ignored/\n");

    let found = candidates(&disk, look_for("/app", vec![], false));

    let lines: Vec<(&str, u64, &str, CleanupPreset, bool)> = found
        .iter()
        .map(|c| (c.path.to_str().unwrap(), c.size, c.reason.as_str(), c.preset, c.ignored))
        .collect();
    assert_eq!(
        lines,
        vec![
            (
                "/app/ignored",
                72 * 512,
                "Path matched by .gitignore",
                CleanupPreset::Gitignored,
                true
            ),
            (
                "/app/node_modules",
                32 * 512,
                "Node dependency directory",
                CleanupPreset::Node,
                false
            ),
            (
                "/app/target",
                8 * 512,
                "Cargo build output directory",
                CleanupPreset::Rust,
                false
            ),
        ]
    );
}

#[test]
fn candidates_of_the_same_size_are_listed_by_path() {
    let mut disk = Disk::new();
    for name in ["b", "a.b", "a", "c"] {
        disk.dir(&format!("/work/{name}/target"));
    }
    disk.file("/work/c/target/large", b"");

    let found = candidates(&disk, look_for("/work", vec![CleanupPreset::Rust], false));

    let listed: Vec<&str> = found.iter().map(|c| c.path.to_str().unwrap()).collect();
    assert_eq!(
        listed,
        vec!["/work/c/target", "/work/a/target", "/work/a.b/target", "/work/b/target"]
    );
}

#[test]
fn a_path_is_a_candidate_only_once() {
    let mut disk = Disk::new();
    disk.dir("/app/target/debug");
    disk.file("/app/.gitignore", b"target/\n");

    let both = candidates(
        &disk,
        look_for("/app", vec![CleanupPreset::Rust, CleanupPreset::Gitignored], false),
    );
    assert_eq!(both.len(), 1);
    assert_eq!(both[0].preset, CleanupPreset::Rust);

    let turned = candidates(
        &disk,
        look_for("/app", vec![CleanupPreset::Gitignored, CleanupPreset::Rust], false),
    );
    assert_eq!(turned.len(), 1);
    assert_eq!(turned[0].preset, CleanupPreset::Gitignored);

    let twice = candidates(
        &disk,
        look_for("/app", vec![CleanupPreset::Rust, CleanupPreset::Rust], false),
    );
    assert_eq!(twice.len(), 1);

    let doubled = CandidateOptions {
        roots: vec![PathBuf::from("/app"), PathBuf::from("/app//./")],
        presets: vec![CleanupPreset::Rust],
        ignore_hidden: false,
        follow_symlinks: false,
    };
    assert_eq!(candidates(&disk, doubled).len(), 1);
}

#[test]
fn presets_listed_together_find_what_each_finds() {
    let mut disk = Disk::new();
    disk.dir("/app/target/debug");
    disk.dir("/app/node_modules");
    disk.file("/app/a.log", b"");
    disk.file("/app/.gitignore", b"target/\n*.log\n");
    let found = |presets| -> Vec<(PathBuf, CleanupPreset)> {
        let mut list: Vec<(PathBuf, CleanupPreset)> =
            candidates(&disk, look_for("/app", presets, false))
                .into_iter()
                .map(|candidate| (candidate.path, candidate.preset))
                .collect();
        list.sort_by(|a, b| a.0.cmp(&b.0));
        list
    };
    let first = found(vec![CleanupPreset::Node, CleanupPreset::Rust]);
    let then = found(vec![CleanupPreset::Gitignored]);
    let mut expected = first.clone();
    for entry in then {
        if !first.iter().any(|known| known.0 == entry.0) {
            expected.push(entry);
        }
    }
    expected.sort_by(|a, b| a.0.cmp(&b.0));
    let both =
        found(vec![CleanupPreset::Node, CleanupPreset::Rust, CleanupPreset::Gitignored]);
    assert_eq!(both, expected);
    assert_eq!(both.len(), 3);
}

#[test]
fn named_directories_are_not_searched_further() {
    let mut disk = Disk::new();
    disk.dir("/app/node_modules/pkg/node_modules/inner");
    disk.dir("/app/lib/node_modules");
    disk.file("/app/lib/target", b"a file with the name");

    let found = candidates(
        &disk,
        look_for("/app", vec![CleanupPreset::Node, CleanupPreset::Rust], false),
    );

    let listed: Vec<&str> = found.iter().map(|c| c.path.to_str().unwrap()).collect();
    assert_eq!(listed, vec!["/app/node_modules", "/app/lib/node_modules"]);
}

#[test]
fn a_root_can_be_a_candidate_itself() {
    let mut disk = Disk::new();
    disk.dir("/app/target");
    let found = candidates(&disk, look_for("/app/target", vec![CleanupPreset::Rust], false));
    assert_eq!(found.len(), 1);
    assert_eq!(found[0].path, PathBuf::from("/app/target"));
}

#[test]
fn hidden_directories_are_left_out_of_a_search_when_asked() {
    let mut disk = Disk::new();
    disk.dir("/app/.cache/target");
    disk.dir("/.hidden/target");
    let mut options = look_for("/app", vec![CleanupPreset::Rust], false);
    assert_eq!(candidates(&disk, options.clone()).len(), 1);
    options.ignore_hidden = true;
    assert_eq!(candidates(&disk, options.clone()).len(), 0);
    options.roots = vec![PathBuf::from("/.hidden")];
    assert_eq!(candidates(&disk, options).len(), 0);
}

#[test]
fn what_lies_below_an_ignored_path_is_not_listed_again() {
    let mut disk = Disk::new();
    disk.dir("/app/out/logs");
    disk.file("/app/out/logs/a.log", b"");
    disk.file("/app/b.log", b"");
    disk.file("/app/.gitignore", b"out/\n*.log\n");

    let found = candidates(&disk, look_for("/app", vec![CleanupPreset::Gitignored], false));

    let listed: Vec<&str> = found.iter().map(|c| c.path.to_str().unwrap()).collect();
    assert_eq!(listed, vec!["/app/out", "/app/b.log"]);
}

#[test]
fn a_search_without_roots_finds_nothing() {
    let disk = Disk::new();
    let mut options = look_for("/", vec![], false);
    options.roots.clear();
    assert!(candidates(&disk, options).is_empty());
    assert!(candidates(&disk, look_for("/missing", vec![], false)).is_empty());
}

#[test]
fn a_search_whose_sizes_do_not_fit_is_given_up() {
    let mut disk = Disk::new();
    disk.dir("/app/target");
    disk.sized("/app/target/a", u64::MAX, b"");
    disk.sized("/app/target/b", u64::MAX, b"");
    let search = find_candidates(look_for("/app", vec![CleanupPreset::Rust], false));
    assert!(drive_candidates(&disk, search).is_none());

    let ignored = find_candidates(look_for("/app", vec![CleanupPreset::Gitignored], false));
    assert!(drive_candidates(&disk, ignored).is_none());
}

#[test]
fn a_plan_keeps_the_order_and_adds_up() {
    let mut disk = Disk::new();
    disk.dir("/a/target");
    disk.dir("/b/target");
    disk.file("/b/target/x", b"");
    let mut options = look_for("/a", vec![CleanupPreset::Rust], false);
    options.roots.push(PathBuf::from("/b"));
    let found = candidates(&disk, options);
    assert_eq!(planned_size(&found), Some(24 * 512));

    let plan = build_removal_plan(found.clone());

    assert_eq!(plan.total_size, 24 * 512);
    assert!(plan.errors.is_empty());
    assert_eq!(plan.entries.len(), found.len());
    for (entry, candidate) in plan.entries.iter().zip(&found) {
        assert_eq!(entry.path, candidate.path);
        assert_eq!(entry.size, candidate.size);
        assert_eq!(entry.reason, candidate.reason);
        assert_eq!(entry.preset, candidate.preset);
    }
}

#[test]
fn what_cannot_be_removed_is_reported_and_the_rest_is_removed() {
    let mut disk = Disk::new();
    disk.dir("/a/target");
    disk.dir("/b/target");
    disk.dir("/c/target");
    let mut options = look_for("/a", vec![CleanupPreset::Rust], false);
    options.roots.push(PathBuf::from("/b"));
    options.roots.push(PathBuf::from("/c"));
    let plan = build_removal_plan(candidates(&disk, options));
    disk.stuck.push(PathBuf::from("/a/target"));
    disk.remove(Path::new("/b/target")).unwrap();

    let run = execute_removal_plan(&plan);
    let outcome = drive_removal(&mut disk, run);

    assert_eq!(
        outcome.errors,
        vec!["/a/target: permission denied".to_string(), "/b/target: not found".to_string()]
    );
    assert_eq!(outcome.removed.len(), 1);
    assert_eq!(outcome.removed[0].path, PathBuf::from("/c/target"));
    assert_eq!(outcome.bytes_removed, 8 * 512);
    assert_eq!(outcome.removed.len() + outcome.errors.len(), plan.entries.len());
    assert!(disk.is_there("/a/target"));
    assert!(!disk.is_there("/c/target"));
}

#[test]
fn removing_a_link_leaves_what_it_leads_to() {
    let mut disk = Disk::new();
    disk.dir("/store/real");
    disk.link("/store/real", "/link");
    match delete_path::<String>(PathBuf::from("/link")).inspected(Ok(FileKind::Symlink)).request() {
        DeletionRequest::RemoveFile(path) => assert_eq!(path, &PathBuf::from("/link")),
        _ => panic!("a link is to be removed as a file"),
    }
    drive_deletion(&mut disk, delete_path(PathBuf::from("/link"))).unwrap();
    assert!(disk.is_there("/store/real"));
    assert!(!disk.is_there("/link"));
}

#[test]
fn deleting_what_is_not_there_is_an_error() {
    let mut disk = Disk::new();
    let result = drive_deletion(&mut disk, delete_path(PathBuf::from("/missing")));
    assert_eq!(result, Err("not found".to_string()));
}

// Repositories.

/// `/git/clean` is committed, `/git/dirty` has a file that is not.
fn two_repositories() -> Disk {
    let mut disk = Disk::new();
    for repo in ["clean", "dirty"] {
        disk.dir(&format!("/git/{repo}/.git"));
        disk.file(&format!("/git/{repo}/tracked.txt"), b"init\n");
    }
    disk.file("/git/dirty/uncommitted.txt", b"wip\n");
    disk.status.insert(PathBuf::from("/git/clean"), Some(b"".to_vec()));
    disk.status.insert(PathBuf::from("/git/dirty"), Some(b"?? uncommitted.txt\n".to_vec()));
    disk
}

fn repos(disk: &Disk, root: &str, ignore_hidden: bool, follow_symlinks: bool) -> Vec<DirtyGitRepo> {
    drive_repos(
        disk,
        find_dirty_git_repos(DirtyGitRepoOptions {
            roots: vec![PathBuf::from(root)],
            ignore_hidden,
            follow_symlinks,
        }),
    )
}

#[test]
fn finds_dirty_repos_and_skips_clean_ones() {
    let disk = two_repositories();

    let repos = repos(&disk, "/git", false, false);

    assert_eq!(repos.len(), 1);
    assert!(repos[0].path.ends_with("dirty"));
    assert!(repos[0].dirty_entries >= 1);
}

#[test]
fn symlinked_repos_are_skipped_unless_follow_symlinks_is_set() {
    // The linked repository lies outside the searched root.
    let mut disk = Disk::new();
    disk.dir("/base/store/repo/.git");
    disk.dir("/base/root/links");
    disk.file("/base/store/repo/uncommitted.txt", b"wip\n");
    disk.status.insert(
        PathBuf::from("/base/store/repo"),
        Some(b"?? uncommitted.txt\n".to_vec()),
    );
    disk.link("/base/store/repo", "/base/root/links/repo-link");

    let skipped = repos(&disk, "/base/root", false, false);
    assert!(skipped.is_empty());

    let followed = repos(&disk, "/base/root", false, true);
    assert_eq!(followed.len(), 1);
    assert!(followed[0].path.starts_with("/base/root/links"));
}

#[test]
fn repositories_inside_a_clean_one_are_found_and_inside_a_dirty_one_are_not() {
    let mut disk = two_repositories();
    for repo in ["/git/clean/sub/inner", "/git/dirty/sub/inner"] {
        disk.dir(&format!("{repo}/.git"));
        disk.status.insert(PathBuf::from(repo), Some(b" M a\n M b\n".to_vec()));
    }

    let found = repos(&disk, "/git", false, false);

    let listed: Vec<(&str, u32)> =
        found.iter().map(|repo| (repo.path.to_str().unwrap(), repo.dirty_entries)).collect();
    assert_eq!(listed, vec![("/git/clean/sub/inner", 2), ("/git/dirty", 1)]);
}

#[test]
fn a_repository_without_a_status_counts_as_clean() {
    let mut disk = two_repositories();
    disk.status.insert(PathBuf::from("/git/dirty"), None);
    assert!(repos(&disk, "/git", false, false).is_empty());
    disk.status.insert(PathBuf::from("/git/dirty"), Some(b"  \n\t\n".to_vec()));
    assert!(repos(&disk, "/git", false, false).is_empty());
}

#[test]
fn a_repository_is_dirty_whatever_the_encoding_of_its_status() {
    let mut disk = Disk::new();
    disk.dir("/r/.git");
    disk.status.insert(PathBuf::from("/r"), Some(b"?? \xff\n".to_vec()));
    let found = repos(&disk, "/r", false, false);
    assert_eq!(found.len(), 1);
    assert_eq!(found[0].path, PathBuf::from("/r"));
    assert_eq!(found[0].dirty_entries, 1);
}

#[test]
fn git_directories_are_never_searched() {
    let mut disk = two_repositories();
    disk.dir("/git/clean/.git/modules/sub/.git");
    disk.status.insert(PathBuf::from("/git/clean/.git/modules/sub"), Some(b"?? a\n".to_vec()));
    let found = repos(&disk, "/git", false, false);
    assert_eq!(found.len(), 1);
    assert_eq!(found[0].path, PathBuf::from("/git/dirty"));

    // A root is searched whatever its name.
    assert_eq!(repos(&disk, "/git/clean/.git", false, false).len(), 1);
}

#[test]
fn hidden_repositories_are_left_out_when_asked() {
    let mut disk = two_repositories();
    disk.dir("/git/.secret/.git");
    disk.status.insert(PathBuf::from("/git/.secret"), Some(b"?? a\n".to_vec()));
    assert_eq!(repos(&disk, "/git", false, false).len(), 2);
    assert_eq!(repos(&disk, "/git", true, false).len(), 1);
}

#[test]
fn symlink_cycles_do_not_hang_the_repository_walk() {
    let mut disk = two_repositories();
    disk.link("/git", "/git/clean/loop");
    assert_eq!(repos(&disk, "/git", false, true).len(), 1);
}

// Scans.

#[test]
fn legacy_scan_matches_completed_cooperative_scan() {
    let mut disk = Disk::new();
    disk.dir("/legacy/nested");
    disk.file("/legacy/alpha.txt", b"alpha");
    disk.file("/legacy/nested/beta.txt", b"beta");

    let legacy = scan(&disk, options("/legacy"));
    let walk = scan_directory_cooperative(options("/legacy"), ScanControl::default(), None);
    let (outcome, _) = drive_scan(&disk, walk, &mut |_, _| (false, 0)).unwrap();

    let ScanOutcome::Completed { roots, progress } = outcome else {
        panic!("an uncancelled scan did not complete")
    };
    assert_eq!(legacy, roots);
    assert_eq!(progress.visited, progress.admitted);
    assert_eq!(progress.completed, progress.admitted);
}

#[test]
fn progress_counters_are_monotonic_and_polled_off_workers() {
    let mut disk = Disk::new();
    disk.dir("/progress/nested");
    disk.file("/progress/first", b"first");
    disk.file("/progress/nested/second", b"second");
    let control = ScanControl::default();
    let initial = control.progress();

    let mut polled: Vec<ScanProgress> = Vec::new();
    let walk = scan_directory_cooperative(options("/progress"), control, None);
    let (outcome, _) = drive_scan(&disk, walk, &mut |_, walk| {
        polled.push(walk.progress());
        (false, 0)
    })
    .unwrap();

    let ScanOutcome::Completed { progress, .. } = outcome else {
        panic!("an uncancelled scan did not complete")
    };
    let mut before = initial;
    for now in polled {
        assert_monotonic(before, now);
        before = now;
    }
    assert_monotonic(before, progress);
    assert!(progress.visited >= 4);
    assert_eq!(progress.visited, progress.admitted);
    assert_eq!(progress.completed, progress.admitted);
    assert!(progress.bytes > 0);
}

#[test]
fn cancel_propagates_to_root_without_partial_success() {
    let mut disk = Disk::new();
    disk.dir("/cancel-root");
    disk.file("/cancel-root/child", b"child");
    let mut control = ScanControl::default();

    // The third signal after the entries were read comes before the child is let in.
    let mut since_listing = 0;
    let walk = scan_directory_cooperative(options("/cancel-root"), ScanControl::default(), None);
    let mut seen_cancelled = false;
    let (outcome, polled) = drive_scan(&disk, walk, &mut |last, walk| {
        seen_cancelled = walk.control().is_cancelled();
        if since_listing > 0 || matches!(last, Last::Listing(_)) {
            since_listing += 1;
        }
        if since_listing == 3 {
            control.cancel();
        }
        (control.is_cancelled(), 0)
    })
    .unwrap();

    let ScanOutcome::Cancelled { progress } = outcome else {
        panic!("cancellation was reported as partial success")
    };
    assert!(control.is_cancelled());
    assert!(seen_cancelled);
    assert_eq!(progress, polled);
    assert_eq!(progress.admitted, 1);
}

#[test]
fn cancel_bounds_new_recursive_admissions_after_barrier() {
    let mut disk = Disk::new();
    disk.dir("/cancel-admission");
    for index in 0..32 {
        disk.file(&format!("/cancel-admission/entry-{index}"), b"entry");
    }
    let mut control = ScanControl::default();

    let mut admitted_at_barrier = 0;
    let walk =
        scan_directory_cooperative(options("/cancel-admission"), ScanControl::default(), None);
    let (outcome, _) = drive_scan(&disk, walk, &mut |last, walk| {
        if matches!(last, Last::Listing(_)) {
            admitted_at_barrier = walk.progress().admitted;
            control.cancel();
        }
        (control.is_cancelled(), 0)
    })
    .unwrap();

    let ScanOutcome::Cancelled { progress } = outcome else {
        panic!("cancellation was reported as success")
    };
    assert_eq!(progress.admitted, admitted_at_barrier);
}

#[test]
fn deadline_is_not_reported_as_explicit_cancel() {
    let mut disk = Disk::new();
    disk.dir("/deadline");
    disk.file("/deadline/child", b"child");
    let mut control = ScanControl { cancelled: true, ..ScanControl::default() };

    let walk =
        scan_directory_cooperative(options("/deadline"), ScanControl::default(), Some(1_000));
    let (outcome, polled) = drive_scan(&disk, walk, &mut |_, walk| {
        control = ScanControl {
            cancelled: walk.control().is_cancelled(),
            visited: walk.progress().visited,
            admitted: walk.progress().admitted,
            completed: walk.progress().completed,
            bytes: walk.progress().bytes,
        };
        (false, 1_000)
    })
    .unwrap();

    let ScanOutcome::Deadline { progress } = outcome else {
        panic!("an expired deadline was not distinguished from explicit cancellation")
    };
    assert!(!control.is_cancelled());
    assert_eq!(progress, polled);
    assert_eq!(progress, control.progress());
}

#[test]
fn collapsed_summary_propagates_cancel() {
    let mut disk = Disk::new();
    disk.dir("/collapsed-cancel/ignored/nested");
    disk.file("/collapsed-cancel/.gitignore", b"ignored/\n");
    disk.file("/collapsed-cancel/ignored/nested/payload", b"payload");
    let mut scan_options = options("/collapsed-cancel");
    scan_options.respect_gitignore = true;
    scan_options.ignored_mode = IgnoredMode::Summarize;

    let mut inside = false;
    let walk = scan_directory_cooperative(scan_options, ScanControl::default(), None);
    let (outcome, _) = drive_scan(&disk, walk, &mut |last, _| {
        if *last == Last::Listing(PathBuf::from("/collapsed-cancel/ignored")) {
            inside = true;
        }
        (inside && *last == Last::Signal, 0)
    })
    .unwrap();

    assert!(inside);
    assert!(matches!(outcome, ScanOutcome::Cancelled { .. }));
}

#[test]
fn a_scan_gives_the_tree_with_sizes_and_depths() {
    let mut disk = Disk::new();
    disk.dir("/tree/nested/deep");
    disk.sized("/tree/alpha.txt", 1, b"");
    disk.sized("/tree/nested/beta.txt", 2, b"");
    disk.sized("/tree/nested/deep/gamma.txt", 3, b"");

    let roots = scan(&disk, options("/tree"));

    let leaf = |name: &str, path: &str, size: u64, depth: u32| ScanNode {
        name: name.to_string(),
        path: PathBuf::from(path),
        size,
        children: vec![],
        depth,
        ignored: false,
        collapsed: false,
    };
    let deep = ScanNode {
        size: (8 + 3) * 512,
        children: vec![leaf("gamma.txt", "/tree/nested/deep/gamma.txt", 3 * 512, 2)],
        ..leaf("deep", "/tree/nested/deep", 0, 2)
    };
    let nested = ScanNode {
        size: (8 + 8 + 3 + 2) * 512,
        children: vec![leaf("beta.txt", "/tree/nested/beta.txt", 2 * 512, 1), deep],
        ..leaf("nested", "/tree/nested", 0, 1)
    };
    let root = ScanNode {
        size: (3 * 8 + 1 + 2 + 3) * 512,
        children: vec![leaf("alpha.txt", "/tree/alpha.txt", 512, 0), nested],
        ..leaf("tree", "/tree", 0, 0)
    };
    assert_eq!(roots, vec![root]);
}

#[test]
fn a_copied_tree_is_the_same_tree() {
    let mut disk = Disk::new();
    disk.dir("/tree/nested/deep");
    disk.file("/tree/nested/a", b"");
    let options = options("/tree");
    let roots = scan(&disk, options.clone());
    assert_eq!(roots.clone(), roots);
    assert_eq!(roots[0].clone().children[0].children.len(), 2);
    assert_eq!(scan(&disk, options), roots);
}

#[test]
fn the_bytes_of_a_completed_scan_are_the_sizes_of_its_roots() {
    let mut disk = Disk::new();
    disk.dir("/one/sub");
    disk.file("/one/sub/a", b"");
    disk.dir("/two");
    disk.hard_link("/one/sub/a", "/two/again");
    let mut two_roots = options("/one");
    two_roots.directories.push(PathBuf::from("/two"));

    let walk = scan_directory_cooperative(two_roots, ScanControl::default(), None);
    let (outcome, _) = drive_scan(&disk, walk, &mut |_, _| (false, 0)).unwrap();

    let ScanOutcome::Completed { roots, progress } = outcome else {
        panic!("an uncancelled scan did not complete")
    };
    assert_eq!(roots.iter().map(|root| root.size).sum::<u64>(), progress.bytes);
    assert_eq!(progress.bytes, 4 * 8 * 512);
    // The second name of the file is looked at and does not count.
    assert_eq!(progress.visited, 5);
    assert_eq!(progress.completed, 5);
    assert!(roots[1].children.is_empty());
}

#[test]
fn a_scan_that_starts_from_other_counters_finds_the_same() {
    let mut disk = Disk::new();
    disk.dir("/tree/nested");
    disk.file("/tree/nested/a", b"");
    let used = ScanControl {
        cancelled: false,
        visited: 10,
        admitted: 20,
        completed: u64::MAX,
        bytes: u64::MAX - 1,
    };
    let walk = scan_directory_cooperative(options("/tree"), used, None);
    let (outcome, _) = drive_scan(&disk, walk, &mut |_, _| (false, 0)).unwrap();
    let ScanOutcome::Completed { roots, progress } = outcome else {
        panic!("an uncancelled scan did not complete")
    };
    assert_eq!(roots, scan(&disk, options("/tree")));
    assert_eq!(progress.visited, 13);
    assert_eq!(progress.admitted, 23);
    assert_eq!(progress.completed, u64::MAX);
    assert_eq!(progress.bytes, u64::MAX);
}

#[test]
fn full_paths_are_shown_when_asked() {
    let mut disk = Disk::new();
    disk.dir("/tree");
    disk.file("/tree/a", b"");
    let mut full = options("/tree");
    full.full_path = true;
    let roots = scan(&disk, full);
    assert_eq!(roots[0].name, "/tree");
    assert_eq!(roots[0].children[0].name, "/tree/a");

    // A path without a name is shown whole.
    assert_eq!(scan(&disk, options("/"))[0].name, "/");
}

#[test]
fn hidden_entries_are_left_out_of_a_scan_when_asked_but_a_hidden_root_is_not() {
    let mut disk = Disk::new();
    disk.dir("/.tree/.cache");
    disk.file("/.tree/.cache/a", b"");
    disk.file("/.tree/.b", b"");
    disk.file("/.tree/c", b"");
    assert_eq!(scan(&disk, options("/.tree"))[0].children.len(), 3);
    let mut visible = options("/.tree");
    visible.ignore_hidden = true;
    let roots = scan(&disk, visible);
    assert_eq!(roots[0].children.len(), 1);
    assert_eq!(roots[0].children[0].name, "c");
    assert_eq!(roots[0].size, 16 * 512);
}

/// A project whose `out` directory and logs are ignored, but for one log.
fn project() -> Disk {
    let mut disk = Disk::new();
    disk.dir("/project/out/objects");
    disk.sized("/project/out/objects/a.o", 4, b"");
    disk.dir("/project/src");
    disk.sized("/project/src/keep.log", 1, b"");
    disk.sized("/project/src/drop.log", 2, b"");
    disk.sized("/project/.gitignore", 1, b"out/\n*.log\n");
    disk.sized("/project/src/.gitignore", 1, b"!keep.log\n");
    disk
}

#[test]
fn ignored_paths_can_be_excluded() {
    let disk = project();
    let mut excluding = options("/project");
    excluding.respect_gitignore = true;
    let roots = scan(&disk, excluding);
    let names: Vec<&str> = roots[0].children.iter().map(|node| node.name.as_str()).collect();
    assert_eq!(names, vec![".gitignore", "src"]);
    let inner: Vec<&str> =
        roots[0].children[1].children.iter().map(|node| node.name.as_str()).collect();
    assert_eq!(inner, vec![".gitignore", "keep.log"]);
    assert_eq!(roots[0].size, (8 + 1 + 8 + 1 + 1) * 512);
}

#[test]
fn ignored_directories_can_be_summarized() {
    let disk = project();
    let mut summarizing = options("/project");
    summarizing.respect_gitignore = true;
    summarizing.ignored_mode = IgnoredMode::Summarize;
    let roots = scan(&disk, summarizing);
    let out = &roots[0].children[1];
    assert_eq!(out.name, "out");
    assert!(out.ignored && out.collapsed);
    assert_eq!(out.depth, 1);
    assert!(out.children.is_empty());
    assert_eq!(out.size, (8 + 8 + 4) * 512);
    let src = &roots[0].children[2];
    let flags: Vec<(&str, bool, bool)> = src
        .children
        .iter()
        .map(|node| (node.name.as_str(), node.ignored, node.collapsed))
        .collect();
    assert_eq!(
        flags,
        vec![(".gitignore", false, false), ("drop.log", true, false), ("keep.log", false, false)]
    );
    assert!(!roots[0].ignored && !roots[0].collapsed);
}

#[test]
fn summarizing_drops_no_bytes_and_excluding_adds_none() {
    let disk = project();
    let plain = scan(&disk, options("/project"));
    let mut respecting = options("/project");
    respecting.respect_gitignore = true;
    let excluded = scan(&disk, respecting.clone());
    respecting.ignored_mode = IgnoredMode::Summarize;
    let summarized = scan(&disk, respecting);
    assert_eq!(plain[0].size, (4 * 8 + 4 + 1 + 2 + 1 + 1) * 512);
    assert_eq!(summarized[0].size, plain[0].size);
    assert!(excluded[0].size < plain[0].size);
}

#[test]
fn excluding_adds_no_bytes_where_directories_have_no_number() {
    let mut disk = project();
    disk.hard_link("/project/src/keep.log", "/project/out/again");
    disk.numbers_directories = false;
    let plain = scan(&disk, options("/project"));
    let mut respecting = options("/project");
    respecting.respect_gitignore = true;
    let excluded = scan(&disk, respecting);
    assert_eq!(plain[0].size, (4 * 8 + 4 + 1 + 2 + 1 + 1) * 512);
    // The file that an ignored directory names first is now found where it is not ignored.
    assert_eq!(excluded[0].size, (8 + 1 + 8 + 1 + 1) * 512);
    assert_eq!(drive_measure(&disk, measure_path(PathBuf::from("/project"))), Some(plain[0].size));
}

#[test]
fn what_cannot_be_looked_up_changes_no_size() {
    let mut disk = project();
    let before = scan(&disk, options("/project"))[0].size;
    disk.file("/project/src/veiled", b"");
    disk.veiled.push(PathBuf::from("/project/src/veiled"));
    assert_eq!(scan(&disk, options("/project"))[0].size, before);
    assert_eq!(drive_measure(&disk, measure_path(PathBuf::from("/project"))), Some(before));
    let mut summarizing = options("/project");
    summarizing.respect_gitignore = true;
    summarizing.ignored_mode = IgnoredMode::Summarize;
    assert_eq!(scan(&disk, summarizing)[0].size, before);
}

#[test]
fn a_measurement_is_the_size_of_the_scanned_root() {
    let disk = project();
    for root in ["/project", "/project/out", "/project/src/keep.log"] {
        let scanned = scan(&disk, options(root))[0].size;
        assert_eq!(drive_measure(&disk, measure_path(PathBuf::from(root))), Some(scanned));
    }
    assert!(scan(&disk, options("/missing")).is_empty());
    assert_eq!(drive_measure(&disk, measure_path(PathBuf::from("/missing"))), Some(0));
}

#[test]
fn ignore_files_do_not_count_unless_asked() {
    let disk = project();
    let roots = scan(&disk, options("/project"));
    assert_eq!(roots[0].children.len(), 3);
    assert!(roots[0].children.iter().all(|node| !node.ignored));
}

#[test]
fn an_ignore_file_that_cannot_be_read_ignores_nothing() {
    let mut disk = project();
    disk.remove(Path::new("/project/.gitignore")).unwrap();
    disk.dir("/project/.gitignore");
    let mut excluding = options("/project");
    excluding.respect_gitignore = true;
    assert_eq!(scan(&disk, excluding)[0].children.len(), 3);
}

#[test]
fn a_directory_that_cannot_be_read_counts_by_itself() {
    let mut disk = Disk::new();
    disk.dir("/tree/sealed");
    disk.file("/tree/sealed/a", b"");
    disk.sealed.push(PathBuf::from("/tree/sealed"));
    let roots = scan(&disk, options("/tree"));
    assert_eq!(roots[0].children[0].size, 8 * 512);
    assert!(roots[0].children[0].children.is_empty());
    assert!(scan(&disk, options("/missing")).is_empty());
}

#[test]
fn links_are_leaves_unless_they_are_followed() {
    let mut disk = Disk::new();
    disk.dir("/store/real");
    disk.file("/store/real/a", b"");
    disk.dir("/tree");
    disk.link("/store/real", "/tree/link");
    disk.link("/nowhere", "/tree/broken");
    let roots = scan(&disk, options("/tree"));
    assert_eq!(roots[0].children.len(), 2);
    assert_eq!(roots[0].size, 8 * 512);

    let mut following = options("/tree");
    following.follow_symlinks = true;
    let roots = scan(&disk, following);
    assert_eq!(roots[0].children.len(), 1);
    assert_eq!(roots[0].children[0].children[0].path, PathBuf::from("/tree/link/a"));
    assert_eq!(roots[0].size, 24 * 512);
}

#[test]
fn symlink_cycles_do_not_hang_a_scan() {
    let mut disk = Disk::new();
    disk.dir("/tree/sub");
    disk.link("/tree", "/tree/sub/up");
    let mut following = options("/tree");
    following.follow_symlinks = true;
    assert_eq!(scan(&disk, following)[0].size, 16 * 512);
}

#[test]
fn a_cancelled_scan_that_is_late_too_counts_as_cancelled() {
    let mut disk = Disk::new();
    disk.dir("/tree");
    let walk = scan_directory_cooperative(options("/tree"), ScanControl::default(), Some(5));
    let mut looks = 0;
    let (outcome, _) = drive_scan(&disk, walk, &mut |_, _| {
        looks += 1;
        // The deadline stops the scan; the cancel flag is seen only at the second look.
        (looks == 2, 5)
    })
    .unwrap();
    assert!(matches!(outcome, ScanOutcome::Cancelled { .. }));
    assert_eq!(looks, 2);
    assert!(outcome.into_roots().is_empty());
}

#[test]
fn a_deadline_that_is_not_here_yet_does_not_stop_a_scan() {
    let mut disk = Disk::new();
    disk.dir("/tree");
    let walk = scan_directory_cooperative(options("/tree"), ScanControl::default(), Some(5));
    let (outcome, _) = drive_scan(&disk, walk, &mut |_, _| (false, 4)).unwrap();
    assert!(matches!(outcome, ScanOutcome::Completed { .. }));
}

/// A scan of one file that is about to be counted.
fn about_to_count(identity: Identity) -> ScanWalk {
    let mut walk = scan_directory_cooperative(options("/file"), ScanControl::default(), Some(9));
    while let ScanRequest::Signal = walk.request() {
        walk = walk.signal(false, 0);
    }
    let file = Metadata { kind: FileKind::Other, identity, usage: Usage::Blocks(1) };
    let walk = walk.looked_up(Lookup { link: Some(file), target: None });
    assert!(matches!(walk.request(), ScanRequest::Count));
    walk
}

#[test]
fn a_scan_that_lost_its_shared_state_fails() {
    let known = Identity::Inode { inode: 1, device: 2 };
    match about_to_count(known).poisoned(false, 8).outcome() {
        ScanOutcome::Failed(error) => assert_eq!(error.message, "scan inode state was poisoned"),
        _ => panic!("the scan did not fail"),
    }
    // One that has to stop does not get that far.
    let stopped = about_to_count(known).poisoned(true, 8).signal(true, 8).outcome();
    assert!(matches!(stopped, ScanOutcome::Cancelled { .. }));
    let late = about_to_count(known).poisoned(false, 9).signal(false, 9).outcome();
    assert!(matches!(late, ScanOutcome::Deadline { .. }));
    // What cannot be told apart is not counted in the shared state.
    let completed = about_to_count(Identity::Unknown).poisoned(false, 8).outcome();
    assert_eq!(completed.into_roots()[0].size, 512);
}

/// Drives a scan whose shared state is lost while `lost` is being looked up, and which is cancelled
/// once `cancel_at` was looked up. Gives the outcome, the last progress, and the paths looked up.
fn drive_losing(
    disk: &Disk,
    options: ScanOptions,
    lost: &str,
    cancel_at: Option<&str>,
) -> (ScanOutcome, ScanProgress, Vec<PathBuf>) {
    let mut walk = scan_directory_cooperative(options, ScanControl::default(), None);
    let mut looked_up: Vec<PathBuf> = Vec::new();
    let mut poisoned = false;
    let mut cancel = false;
    loop {
        walk = match walk.request() {
            ScanRequest::Signal => walk.signal(cancel, 0),
            ScanRequest::Count if poisoned => walk.poisoned(cancel, 0),
            ScanRequest::Count => walk.signal(cancel, 0),
            ScanRequest::Lookup { path, follow_symlinks } => {
                let path = path.clone();
                poisoned = poisoned || path == Path::new(lost);
                cancel = cancel || cancel_at.is_some_and(|at| path == Path::new(at));
                let lookup = disk.lookup(&path, follow_symlinks);
                looked_up.push(path);
                walk.looked_up(lookup)
            }
            ScanRequest::Listing(path) => {
                let listing = disk.listing(path);
                walk.listed(listing)
            }
            ScanRequest::Ended => {
                let progress = walk.progress();
                return (walk.outcome(), progress, looked_up);
            }
            _ => panic!("the scan asks for something else"),
        };
    }
}

#[test]
fn a_failing_scan_still_goes_through_the_other_entries() {
    let mut disk = Disk::new();
    disk.dir("/tree/b");
    disk.file("/tree/a", b"");
    disk.file("/tree/b/one", b"");
    disk.file("/tree/b/two", b"");
    disk.file("/tree/c", b"");
    disk.dir("/other");
    let mut two_roots = options("/tree");
    two_roots.directories.push(PathBuf::from("/other"));

    let (outcome, progress, looked_up) = drive_losing(&disk, two_roots.clone(), "/tree/b/one", None);
    assert!(matches!(outcome, ScanOutcome::Failed(_)));
    let every: Vec<PathBuf> = ["/tree", "/tree/a", "/tree/b", "/tree/b/one", "/tree/b/two", "/tree/c"]
        .iter()
        .map(PathBuf::from)
        .collect();
    assert_eq!(looked_up, every);
    assert_eq!(progress.visited, 6);
    assert_eq!(progress.admitted, 6);
    // Only the first file is done with.
    assert_eq!(progress.completed, 1);
    assert!(outcome.into_roots().is_empty());

    // An entry that is cancelled after another one failed makes the whole scan a cancelled one.
    let (outcome, progress, looked_up) =
        drive_losing(&disk, two_roots.clone(), "/tree/b/one", Some("/tree/b/two"));
    assert!(matches!(outcome, ScanOutcome::Cancelled { .. }));
    assert_eq!(looked_up, every[..5].to_vec());
    assert_eq!(progress.admitted, 5);
    let (outcome, _, looked_up) = drive_losing(&disk, two_roots.clone(), "/tree/a", Some("/tree/c"));
    assert!(matches!(outcome, ScanOutcome::Cancelled { .. }));
    assert_eq!(looked_up.last(), Some(&PathBuf::from("/tree/c")));

    // A directory that fails itself is not read.
    let (outcome, _, looked_up) = drive_losing(&disk, two_roots, "/tree/b", None);
    assert!(matches!(outcome, ScanOutcome::Failed(_)));
    assert_eq!(looked_up, vec![every[0].clone(), every[1].clone(), every[2].clone(), every[5].clone()]);
}

#[test]
fn summing_goes_through_the_other_entries_of_a_failing_directory_too() {
    let mut disk = Disk::new();
    disk.dir("/tree/out");
    disk.file("/tree/.gitignore", b"out/\n");
    disk.file("/tree/out/one", b"");
    disk.file("/tree/out/two", b"");
    let mut summarizing = options("/tree");
    summarizing.respect_gitignore = true;
    summarizing.ignored_mode = IgnoredMode::Summarize;
    let mut walk = scan_directory_cooperative(summarizing, ScanControl::default(), None);
    let mut poisoned = false;
    let mut looked_up = 0;
    let outcome = loop {
        walk = match walk.request() {
            ScanRequest::Signal => walk.signal(false, 0),
            ScanRequest::Count if poisoned => walk.poisoned(false, 0),
            ScanRequest::Count => walk.signal(false, 0),
            ScanRequest::Lookup { path, follow_symlinks } => {
                poisoned = poisoned || path.ends_with("one");
                looked_up += 1;
                let lookup = disk.lookup(path, follow_symlinks);
                walk.looked_up(lookup)
            }
            ScanRequest::IgnoreFile(path) => {
                let file = disk.ignore_file(path);
                walk.ignore_file(file)
            }
            ScanRequest::Listing(path) => {
                let listing = disk.listing(path);
                walk.listed(listing)
            }
            ScanRequest::Ended => break walk.outcome(),
            ScanRequest::Overflow => panic!("the sizes fit"),
        };
    };
    assert!(matches!(outcome, ScanOutcome::Failed(_)));
    assert_eq!(looked_up, 5);
}

#[test]
fn a_scan_whose_sizes_do_not_fit_is_given_up() {
    let mut disk = Disk::new();
    disk.dir("/tree");
    disk.sized("/tree/a", u64::MAX, b"");
    let one = scan(&disk, options("/tree"));
    assert_eq!(one[0].size, u64::MAX);
    disk.sized("/tree/b", 1, b"");
    let walk = scan_directory(options("/tree"));
    assert!(drive_scan(&disk, walk, &mut |_, _| (false, 0)).is_none());
}

#[test]
fn entries_of_an_unknown_kind_are_skipped() {
    let disk = Disk::new();
    let mut walk = scan_directory(options("/"));
    let outcome = loop {
        walk = match walk.request() {
            ScanRequest::Signal | ScanRequest::Count => walk.signal(false, 0),
            ScanRequest::Lookup { path, follow_symlinks } => {
                let lookup = disk.lookup(path, follow_symlinks);
                walk.looked_up(lookup)
            }
            ScanRequest::Listing(_) => walk.listed(Some(vec![
                DirItem::Unreadable,
                DirItem::Entry { path: PathBuf::from("/strange"), kind: None },
            ])),
            ScanRequest::Ended => break walk.outcome(),
            _ => panic!("the scan asks for something else"),
        };
    };
    let roots = outcome.into_roots();
    assert_eq!(roots.len(), 1);
    assert!(roots[0].children.is_empty());
}

// Measuring.

#[test]
fn a_path_is_measured_with_everything_below_it() {
    let mut disk = Disk::new();
    disk.dir("/tree/sub");
    disk.sized("/tree/sub/a", 3, b"");
    disk.sized("/tree/b", 5, b"");
    disk.hard_link("/tree/b", "/tree/c");
    assert_eq!(drive_measure(&disk, measure_path(PathBuf::from("/tree"))), Some(24 * 512));
    assert_eq!(drive_measure(&disk, measure_path(PathBuf::from("/tree/sub/a"))), Some(3 * 512));
    assert_eq!(drive_measure(&disk, measure_path(PathBuf::from("/missing"))), Some(0));
}

#[test]
fn a_measurement_follows_links_only_when_asked() {
    let mut disk = Disk::new();
    disk.dir("/store");
    disk.file("/store/a", b"");
    disk.dir("/tree");
    disk.link("/store", "/tree/link");
    disk.link("/tree", "/store/back");
    disk.link("/nowhere", "/tree/broken");
    let path = PathBuf::from("/tree");
    assert_eq!(drive_measure(&disk, measure_path(path.clone())), Some(8 * 512));
    assert_eq!(drive_measure(&disk, measure_path_inner(path, true)), Some(24 * 512));
}

#[test]
fn a_measurement_that_does_not_fit_is_given_up() {
    let mut disk = Disk::new();
    disk.dir("/tree");
    disk.sized("/tree/a", u64::MAX, b"");
    assert_eq!(drive_measure(&disk, measure_path(PathBuf::from("/tree"))), None);
    assert_eq!(drive_measure(&disk, measure_path(PathBuf::from("/tree/a"))), Some(u64::MAX));
}
