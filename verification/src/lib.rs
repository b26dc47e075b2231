//! Disk-usage scanning, cleanup planning and repository discovery.
//!
//! The library decides; it never touches the file system itself. A walk is a value that names the
//! observation it waits for (metadata of a path, the entries of a directory, the text of an ignore
//! file, a look at the clock) and is carried on by the answer. Whoever drives a walk performs the
//! observation and hands the answer back.
//!
//! - `scanner` scans directories into trees of nodes; `scan_model` says what a scan comes to,
//!   `scan_steps` how it gets there, `scan_laws` and `scan_invariants` what holds of it, `tree_laws`
//!   what its trees show, and `gate_laws` where it can be stopped.
//! - `measure` adds up the space that a path takes, with its laws in `measure_laws`; `scan_sums` says
//!   how its sums and those of different scans stand to each other.
//! - `dir_walk` goes through directories, with its laws in `tour_laws`; `git` finds repositories with
//!   uncommitted changes that way, with its laws in `git_laws`.
//! - `candidates` searches for what can be cleaned up, stated in `candidate_model` with its laws in
//!   `candidate_laws` and `find_laws`; `clean` plans and carries out the removal, with its laws in
//!   `clean_laws`.
//! - `end_laws` says that all walks come to an end, and `view_laws` that the contracts speak of values
//!   as they are.
//! - `paths`, `order`, `path_set`, `sorting`, `text` with `text_laws`, `rules`, `metadata`, `control`
//!   and `world` are what these are built from.

pub mod paths;
pub mod text;
pub mod text_laws;
pub mod order;
pub mod path_set;
pub mod sorting;
pub mod rules;
pub mod metadata;
pub mod control;
pub mod world;
pub mod scan_model;
pub mod scan_steps;
pub mod scan_laws;
pub mod scan_invariants;
pub mod scanner;
pub mod measure;
pub mod measure_laws;
pub mod scan_sums;
pub mod tree_laws;
pub mod gate_laws;
pub mod dir_walk;
pub mod tour_laws;
pub mod git;
pub mod git_laws;
pub mod clean;
pub mod clean_laws;
pub mod candidate_model;
pub mod candidate_laws;
pub mod candidates;
pub mod find_laws;
pub mod end_laws;
pub mod view_laws;

pub use candidates::find_candidates;
pub use clean::{
    build_removal_plan, delete_path, execute_removal_plan, CandidateOptions, CleanupCandidate,
    CleanupPreset, RemovalEntry, RemovalOutcome, RemovalPlan,
};
pub use git::{find_dirty_git_repos, DirtyGitRepo, DirtyGitRepoOptions};
pub use measure::measure_path;
pub use scan_model::IgnoredMode;
pub use scanner::{scan_directory, ScanNode, ScanOptions};
