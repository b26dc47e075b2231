//! What can be cleaned up, and cleaning it up.
//!
//! A plan is made from candidates without touching anything. Carrying it out removes its entries one
//! by one; an entry that cannot be removed is reported and the others are still gone through.

use crate::clean_laws;
use crate::control;
use crate::metadata::FileKind;
use crate::paths;
use crate::paths::PathView;
use crate::sorting;
use crate::text;
use crate::world;
use std::path::PathBuf;
use vstd::prelude::*;

verus! {

/// A kind of thing that can be cleaned up.
#[derive(Clone, Copy, Debug, PartialEq, Eq, Hash, Structural)]
pub enum CleanupPreset {
    /// Dependency directories of Node projects.
    Node,
    /// Build output directories of Cargo projects.
    Rust,
    /// Whatever the ignore files exclude.
    Gitignored,
}

/// Where to look for what can be cleaned up.
#[derive(Clone, Debug)]
pub struct CandidateOptions {
    pub roots: Vec<PathBuf>,
    /// What to look for; everything when this is empty.
    pub presets: Vec<CleanupPreset>,
    pub ignore_hidden: bool,
    /// Go into directories behind symbolic links.
    pub follow_symlinks: bool,
}

impl CandidateOptions {
    /// What is looked for, in this order.
    pub open spec fn wanted(self) -> Seq<CleanupPreset> {
        if self.presets@.len() == 0 {
            seq![CleanupPreset::Node, CleanupPreset::Rust, CleanupPreset::Gitignored]
        } else {
            self.presets@
        }
    }

    /// What is looked for, in this order.
    pub fn effective_presets(&self) -> (presets: Vec<CleanupPreset>)
        ensures
            presets@ == self.wanted(),
            self.presets@.len() > 0 ==> presets@ == self.presets@,
            self.presets@.len() == 0 ==> presets@ == seq![
                CleanupPreset::Node,
                CleanupPreset::Rust,
                CleanupPreset::Gitignored,
            ],
    {
        let mut presets: Vec<CleanupPreset> = Vec::new();
        if self.presets.len() == 0 {
            presets.push(CleanupPreset::Node);
            presets.push(CleanupPreset::Rust);
            presets.push(CleanupPreset::Gitignored);
            return presets;
        }
        let mut i: usize = 0;
        while i < self.presets.len()
            invariant
                i <= self.presets@.len(),
                presets@ == self.presets@.take(i as int),
            decreases self.presets@.len() - i,
        {
            presets.push(self.presets[i]);
            i = i + 1;
            assert(presets@ =~= self.presets@.take(i as int));
        }
        assert(self.presets@.take(i as int) =~= self.presets@);
        presets
    }
}

/// Something that can be cleaned up.
#[derive(Debug)]
pub struct CleanupCandidate {
    pub path: PathBuf,
    /// The bytes that it takes on disk.
    pub size: u64,
    pub reason: String,
    pub preset: CleanupPreset,
    pub ignored: bool,
}

/// A candidate, as the contracts see it.
pub struct CandidateView {
    pub path: PathView,
    pub size: u64,
    pub reason: Seq<char>,
    pub preset: CleanupPreset,
    pub ignored: bool,
}

impl View for CleanupCandidate {
    type V = CandidateView;

    open spec fn view(&self) -> CandidateView {
        CandidateView {
            path: paths::path_view(self.path),
            size: self.size,
            reason: self.reason@,
            preset: self.preset,
            ignored: self.ignored,
        }
    }
}

impl Clone for CleanupCandidate {
    fn clone(&self) -> (copy: CleanupCandidate)
        ensures
            copy@ == self@,
    {
        CleanupCandidate {
            path: self.path.clone(),
            size: self.size,
            reason: self.reason.clone(),
            preset: self.preset,
            ignored: self.ignored,
        }
    }
}

/// Something that is to be removed.
#[derive(Debug)]
pub struct RemovalEntry {
    pub path: PathBuf,
    pub size: u64,
    pub reason: String,
    pub preset: CleanupPreset,
}

/// An entry of a plan, as the contracts see it.
pub struct EntryView {
    pub path: PathView,
    pub size: u64,
    pub reason: Seq<char>,
    pub preset: CleanupPreset,
}

impl View for RemovalEntry {
    type V = EntryView;

    open spec fn view(&self) -> EntryView {
        EntryView {
            path: paths::path_view(self.path),
            size: self.size,
            reason: self.reason@,
            preset: self.preset,
        }
    }
}

impl Clone for RemovalEntry {
    fn clone(&self) -> (copy: RemovalEntry)
        ensures
            copy@ == self@,
    {
        RemovalEntry {
            path: self.path.clone(),
            size: self.size,
            reason: self.reason.clone(),
            preset: self.preset,
        }
    }
}

/// What is to be removed.
#[derive(Clone, Debug)]
pub struct RemovalPlan {
    pub entries: Vec<RemovalEntry>,
    /// The sizes of all entries together.
    pub total_size: u64,
    pub errors: Vec<String>,
}

impl Default for RemovalPlan {
    fn default() -> (plan: RemovalPlan)
        ensures
            plan.entries@.len() == 0,
            plan.total_size == 0,
            plan.errors@.len() == 0,
    {
        RemovalPlan { entries: Vec::new(), total_size: 0, errors: Vec::new() }
    }
}

/// What was removed.
#[derive(Clone, Debug)]
pub struct RemovalOutcome {
    pub removed: Vec<RemovalEntry>,
    /// The sizes of the removed entries together, or the most that a number holds when they are more.
    pub bytes_removed: u64,
    /// What stood in the way of the others.
    pub errors: Vec<String>,
}

/// What was removed, as the contracts see it.
pub struct OutcomeView {
    pub removed: Seq<EntryView>,
    pub bytes_removed: u64,
    pub errors: Seq<Seq<char>>,
}

impl View for RemovalOutcome {
    type V = OutcomeView;

    open spec fn view(&self) -> OutcomeView {
        OutcomeView {
            removed: sorting::views_of(self.removed@),
            bytes_removed: self.bytes_removed,
            errors: text::texts(self.errors@),
        }
    }
}

impl Default for RemovalOutcome {
    fn default() -> (outcome: RemovalOutcome)
        ensures
            outcome@ == OutcomeView::nothing(),
    {
        let outcome = RemovalOutcome {
            removed: Vec::new(),
            bytes_removed: 0,
            errors: Vec::new(),
        };
        assert(outcome@.removed =~= Seq::<EntryView>::empty());
        assert(outcome@.errors =~= Seq::<Seq<char>>::empty());
        outcome
    }
}

impl OutcomeView {
    /// Nothing was removed, and nothing stood in the way.
    pub open spec fn nothing() -> OutcomeView {
        OutcomeView { removed: Seq::empty(), bytes_removed: 0, errors: Seq::empty() }
    }
}

/// The entry that a candidate becomes.
pub open spec fn entry_of(candidate: CandidateView) -> EntryView {
    EntryView {
        path: candidate.path,
        size: candidate.size,
        reason: candidate.reason,
        preset: candidate.preset,
    }
}

pub open spec fn entries_of(candidates: Seq<CandidateView>) -> Seq<EntryView> {
    candidates.map_values(|candidate: CandidateView| entry_of(candidate))
}

/// The sizes of all entries together.
pub open spec fn entry_sizes(entries: Seq<EntryView>) -> nat
    decreases entries.len(),
{
    if entries.len() == 0 {
        0
    } else {
        entry_sizes(entries.drop_last()) + entries.last().size as nat
    }
}

/// A part of a list is no larger than the whole.
proof fn entry_sizes_grow(entries: Seq<EntryView>, part: int)
    requires
        0 <= part <= entries.len(),
    ensures
        entry_sizes(entries.take(part)) <= entry_sizes(entries),
    decreases entries.len() - part,
{
    if part < entries.len() {
        entry_sizes_grow(entries, part + 1);
        assert(entries.take(part + 1).drop_last() =~= entries.take(part));
    } else {
        assert(entries.take(part) =~= entries);
    }
}

/// The sizes of candidates, one by one.
pub open spec fn sizes_of(candidates: Seq<CleanupCandidate>) -> Seq<u64> {
    candidates.map_values(|candidate: CleanupCandidate| candidate.size)
}

proof fn sizes_are_planned(candidates: Seq<CleanupCandidate>)
    ensures
        entry_sizes(entries_of(sorting::views_of(candidates))) == clean_laws::sum_of(
            sizes_of(candidates),
        ),
{
    let views = sorting::views_of(candidates);
    clean_laws::plan_mirrors_candidates(views);
    assert(views.map_values(|candidate: CandidateView| candidate.size) =~= sizes_of(candidates));
}

/// The sizes of all candidates together, if they fit a number.
pub fn planned_size(candidates: &Vec<CleanupCandidate>) -> (total: Option<u64>)
    ensures
        ({
            let sizes = entry_sizes(entries_of(sorting::views_of(candidates@)));
            total == (if sizes > u64::MAX {
                None
            } else {
                Some(sizes as u64)
            })
        }),
        total matches Some(sum) ==> sum == clean_laws::sum_of(sizes_of(candidates@)),
        total is None ==> clean_laws::sum_of(sizes_of(candidates@)) > u64::MAX,
{
    proof {
        sizes_are_planned(candidates@);
    }
    let ghost entries = entries_of(sorting::views_of(candidates@));
    let mut total: u64 = 0;
    let mut i: usize = 0;
    assert(entries.take(0) =~= Seq::<EntryView>::empty());
    while i < candidates.len()
        invariant
            i <= candidates@.len(),
            entries == entries_of(sorting::views_of(candidates@)),
            entries.len() == candidates@.len(),
            total == entry_sizes(entries.take(i as int)),
        decreases candidates@.len() - i,
    {
        assert(entries.take(i + 1).drop_last() =~= entries.take(i as int));
        assert(entries.take(i + 1).last().size == candidates@[i as int].size);
        match total.checked_add(candidates[i].size) {
            Some(sum) => {
                total = sum;
            },
            None => {
                proof {
                    entry_sizes_grow(entries, i + 1);
                    sizes_are_planned(candidates@);
                }
                return None;
            },
        }
        i = i + 1;
    }
    assert(entries.take(i as int) =~= entries);
    Some(total)
}

/// Makes a plan that removes all candidates, in the order in which they stand. Nothing is removed
/// yet.
pub fn build_removal_plan(candidates: Vec<CleanupCandidate>) -> (plan: RemovalPlan)
    requires
        entry_sizes(entries_of(sorting::views_of(candidates@))) <= u64::MAX,
    ensures
        sorting::views_of(plan.entries@) == entries_of(sorting::views_of(candidates@)),
        plan.total_size == entry_sizes(entries_of(sorting::views_of(candidates@))),
        plan.errors@.len() == 0,
        plan.entries@.len() == candidates@.len(),
        forall|i: int|
            #![trigger plan.entries@[i]]
            #![trigger candidates@[i]]
            0 <= i < candidates@.len() ==> {
                &&& paths::path_view(plan.entries@[i].path) == paths::path_view(candidates@[i].path)
                &&& plan.entries@[i].size == candidates@[i].size
                &&& plan.entries@[i].reason@ == candidates@[i].reason@
                &&& plan.entries@[i].preset == candidates@[i].preset
            },
        plan.total_size == clean_laws::sum_of(sizes_of(candidates@)),
{
    proof {
        sizes_are_planned(candidates@);
    }
    let ghost given = sorting::views_of(candidates@);
    let total_size: u64 = match planned_size(&candidates) {
        Some(total) => total,
        None => 0,
    };
    let mut rest: Vec<CleanupCandidate> = world::reversed(candidates);
    let mut entries: Vec<RemovalEntry> = Vec::new();
    assert(sorting::views_of(rest@.reverse()) =~= given);
    assert(sorting::views_of(entries@) + entries_of(given) =~= entries_of(given));
    while rest.len() > 0
        invariant
            sorting::views_of(entries@) + entries_of(sorting::views_of(rest@.reverse()))
                == entries_of(given),
        decreases rest@.len(),
    {
        let ghost before = rest@;
        let ghost made = sorting::views_of(entries@);
        if let Some(candidate) = rest.pop() {
            let ghost left = entries_of(sorting::views_of(before.reverse()));
            let ghost entry = entry_of(candidate@);
            let made_entry = RemovalEntry {
                path: candidate.path,
                size: candidate.size,
                reason: candidate.reason,
                preset: candidate.preset,
            };
            assert(made_entry@ == entry);
            entries.push(made_entry);
            assert(sorting::views_of(entries@) =~= made.push(entry));
            assert(left =~= seq![entry] + entries_of(sorting::views_of(rest@.reverse())));
            assert(made.push(entry) + entries_of(sorting::views_of(rest@.reverse())) =~= made + left);
        }
    }
    assert(sorting::views_of(entries@) =~= sorting::views_of(entries@) + entries_of(
        sorting::views_of(rest@.reverse()),
    ));
    proof {
        clean_laws::plan_mirrors_candidates(given);
        assert forall|i: int|
            #![trigger entries@[i]]
            #![trigger candidates@[i]]
            0 <= i < candidates@.len() implies {
            &&& paths::path_view(entries@[i].path) == paths::path_view(candidates@[i].path)
            &&& entries@[i].size == candidates@[i].size
            &&& entries@[i].reason@ == candidates@[i].reason@
            &&& entries@[i].preset == candidates@[i].preset
        } by {
            assert(sorting::views_of(entries@)[i] == entries@[i]@);
            assert(given[i] == candidates@[i]@);
        }
    }
    RemovalPlan { entries, total_size, errors: Vec::new() }
}

/// Where the removal of a path stands. A path is looked at first: a directory is removed with
/// everything in it, anything else, a symbolic link too, as a file.
#[derive(Debug)]
pub enum DeletionStage<E> {
    /// Waits for what kind of thing the path itself names.
    Inspect,
    /// Waits for the directory to be removed with everything in it.
    RemoveTree,
    /// Waits for the file or link to be removed.
    RemoveFile,
    Done(Result<(), E>),
}

impl<E> DeletionStage<E> {
    /// The path has been looked at.
    pub open spec fn on_inspected(found: Result<FileKind, E>) -> DeletionStage<E> {
        match found {
            Ok(FileKind::Directory) => DeletionStage::RemoveTree,
            Ok(_) => DeletionStage::RemoveFile,
            Err(error) => DeletionStage::Done(Err(error)),
        }
    }

    fn after_inspection(found: Result<FileKind, E>) -> (stage: DeletionStage<E>)
        ensures
            stage == Self::on_inspected(found),
    {
        match found {
            Ok(FileKind::Directory) => DeletionStage::RemoveTree,
            Ok(_) => DeletionStage::RemoveFile,
            Err(error) => DeletionStage::Done(Err(error)),
        }
    }

    /// Whether it waits for something to be removed.
    pub open spec fn is_removing(self) -> bool {
        self is RemoveTree || self is RemoveFile
    }
}

/// The removal of one path, under way.
pub struct Deletion<E> {
    path: PathBuf,
    stage: DeletionStage<E>,
}

/// What the removal of a path waits for.
pub enum DeletionRequest<'a> {
    /// What kind of thing the path itself names; answered by `inspected`.
    Inspect(&'a PathBuf),
    /// The removal of the directory with everything in it; answered by `removed`.
    RemoveTree(&'a PathBuf),
    /// The removal of the file or link; answered by `removed`.
    RemoveFile(&'a PathBuf),
    /// Nothing: `result` says how it ended.
    Done,
}

impl<'a> DeletionRequest<'a> {
    /// Whether this is what the removal of a path waits for that stands at the given stage.
    pub open spec fn is_for<E>(self, path: PathView, stage: DeletionStage<E>) -> bool {
        match self {
            DeletionRequest::Inspect(at) => stage is Inspect && paths::path_view(*at) == path,
            DeletionRequest::RemoveTree(at) => stage is RemoveTree && paths::path_view(*at) == path,
            DeletionRequest::RemoveFile(at) => stage is RemoveFile && paths::path_view(*at) == path,
            DeletionRequest::Done => stage is Done,
        }
    }
}

impl<E> Deletion<E> {
    /// What is to be removed.
    pub closed spec fn path(self) -> PathView {
        paths::path_view(self.path)
    }

    pub closed spec fn stage(self) -> DeletionStage<E> {
        self.stage
    }

    /// What the removal waits for.
    pub fn request(&self) -> (request: DeletionRequest<'_>)
        ensures
            request.is_for(self.path(), self.stage()),
    {
        match &self.stage {
            DeletionStage::Inspect => DeletionRequest::Inspect(&self.path),
            DeletionStage::RemoveTree => DeletionRequest::RemoveTree(&self.path),
            DeletionStage::RemoveFile => DeletionRequest::RemoveFile(&self.path),
            DeletionStage::Done(_) => DeletionRequest::Done,
        }
    }

    /// Goes on after the path has been looked at, or could not be.
    pub fn inspected(self, found: Result<FileKind, E>) -> (deletion: Deletion<E>)
        requires
            self.stage() is Inspect,
        ensures
            deletion.path() == self.path(),
            deletion.stage() == DeletionStage::on_inspected(found),
            found matches Ok(kind) ==> (kind == FileKind::Directory ==> deletion.stage()
                is RemoveTree) && (kind != FileKind::Directory ==> deletion.stage() is RemoveFile),
            found matches Err(error) ==> deletion.stage() == DeletionStage::Done(Err(error)),
    {
        Deletion { path: self.path, stage: DeletionStage::after_inspection(found) }
    }

    /// Ends after the path has been removed, or could not be.
    pub fn removed(self, result: Result<(), E>) -> (deletion: Deletion<E>)
        requires
            self.stage().is_removing(),
        ensures
            deletion.path() == self.path(),
            deletion.stage() == DeletionStage::Done(result),
    {
        Deletion { path: self.path, stage: DeletionStage::Done(result) }
    }

    /// How the removal ended.
    pub fn result(self) -> (result: Result<(), E>)
        requires
            self.stage() is Done,
        ensures
            self.stage() == DeletionStage::Done(result),
    {
        match self.stage {
            DeletionStage::Done(result) => result,
            _ => Ok(()),
        }
    }
}

/// Begins to remove a path.
fn remove_path<E>(path: PathBuf) -> (deletion: Deletion<E>)
    ensures
        deletion.path() == paths::path_view(path),
        deletion.stage() == DeletionStage::<E>::Inspect,
{
    Deletion { path, stage: DeletionStage::Inspect }
}

/// Begins to remove a file or a directory with everything in it.
pub fn delete_path<E>(path: PathBuf) -> (deletion: Deletion<E>)
    ensures
        deletion.path() == paths::path_view(path),
        deletion.stage() == DeletionStage::<E>::Inspect,
{
    remove_path(path)
}

/// What is said of a path that could not be removed.
pub open spec fn complaint(path: PathView, error: Seq<char>) -> Seq<char> {
    path.full_text() + ": "@ + error
}

fn complain(path: &PathBuf, error: &String) -> (message: String)
    ensures
        message@ == complaint(paths::path_view(*path), error@),
{
    let mut message: String = paths::full_text(path);
    message.append(": ");
    message.append(error.as_str());
    message
}

impl OutcomeView {
    /// What was removed once one more entry has been tried, with the given result.
    pub open spec fn after(self, entry: EntryView, result: Result<(), String>) -> OutcomeView {
        match result {
            Ok(_) => OutcomeView {
                removed: self.removed.push(entry),
                bytes_removed: control::capped(self.bytes_removed, entry.size),
                ..self
            },
            Err(error) => OutcomeView {
                errors: self.errors.push(complaint(entry.path, error@)),
                ..self
            },
        }
    }
}

/// What was removed once the first entries have been tried, with these results.
pub open spec fn outcome_of(entries: Seq<EntryView>, results: Seq<Result<(), String>>) -> OutcomeView
    decreases results.len(),
{
    if results.len() == 0 {
        OutcomeView::nothing()
    } else {
        outcome_of(entries, results.drop_last()).after(
            entries[results.len() - 1],
            results.last(),
        )
    }
}

/// The state of a plan that is being carried out.
pub struct RunView {
    /// The entries that have not been done with; the first is being removed.
    pub todo: Seq<EntryView>,
    /// Where the removal of the first stands.
    pub stage: DeletionStage<String>,
    pub outcome: OutcomeView,
}

impl RunView {
    /// A plan that is about to be carried out.
    pub open spec fn start(entries: Seq<EntryView>) -> RunView {
        RunView { todo: entries, stage: DeletionStage::Inspect, outcome: OutcomeView::nothing() }
    }

    /// On to the next entry if the first is done with.
    pub open spec fn settled(self) -> RunView {
        match self.stage {
            DeletionStage::Done(result) => RunView {
                todo: self.todo.drop_first(),
                stage: DeletionStage::Inspect,
                outcome: self.outcome.after(self.todo[0], result),
            },
            _ => self,
        }
    }

    /// The path of the first entry has been looked at.
    pub open spec fn on_inspected(self, found: Result<FileKind, String>) -> RunView {
        RunView { stage: DeletionStage::on_inspected(found), ..self }.settled()
    }

    /// The path of the first entry has been removed, or could not be.
    pub open spec fn on_removed(self, result: Result<(), String>) -> RunView {
        RunView { stage: DeletionStage::Done(result), ..self }.settled()
    }

    /// Whether it waits for the path of the first entry to be looked at or removed.
    pub open spec fn wf(self) -> bool {
        &&& !(self.stage is Done)
        &&& self.todo.len() == 0 ==> self.stage is Inspect
    }

    /// Whether the entries were tried one by one so far, with these results.
    pub open spec fn is_after(
        self,
        entries: Seq<EntryView>,
        results: Seq<Result<(), String>>,
    ) -> bool {
        &&& results.len() <= entries.len()
        &&& self.todo == entries.skip(results.len() as int)
        &&& self.outcome == outcome_of(entries, results)
    }

    /// However the answers fall, the entries are tried in their order, none is left out and none is
    /// tried twice, and each counts with its own result.
    pub proof fn steps_keep_order(
        self,
        entries: Seq<EntryView>,
        results: Seq<Result<(), String>>,
        found: Result<FileKind, String>,
        result: Result<(), String>,
    )
        requires
            self.is_after(entries, results),
            self.todo.len() > 0,
        ensures
            self.on_removed(result).is_after(entries, results.push(result)),
            match found {
                Ok(_) => self.on_inspected(found).is_after(entries, results),
                Err(error) => self.on_inspected(found).is_after(
                    entries,
                    results.push(Err::<(), String>(error)),
                ),
            },
    {
        assert(results.push(result).drop_last() =~= results);
        assert(self.todo.drop_first() =~= entries.skip(results.len() as int + 1));
        if let Err(error) = found {
            assert(results.push(Err::<(), String>(error)).drop_last() =~= results);
        }
    }
}

impl RunView {
    /// How many answers it takes at most until the plan has been carried out.
    pub open spec fn answers_left(self) -> int {
        2 * self.todo.len() - if self.stage.is_removing() {
            1int
        } else {
            0int
        }
    }

    /// Every answer brings the end closer.
    pub proof fn steps_come_to_an_end(
        self,
        found: Result<FileKind, String>,
        result: Result<(), String>,
    )
        requires
            self.wf(),
            self.todo.len() > 0,
        ensures
            0 < self.answers_left(),
            self.stage is Inspect ==> self.on_inspected(found).answers_left() < self.answers_left(),
            self.stage.is_removing() ==> self.on_removed(result).answers_left()
                < self.answers_left(),
    {
    }
}

/// How many of the results are successes.
pub open spec fn successes(results: Seq<Result<(), String>>) -> nat
    decreases results.len(),
{
    if results.len() == 0 {
        0
    } else {
        successes(results.drop_last()) + if results.last() is Ok {
            1nat
        } else {
            0nat
        }
    }
}

/// Every entry that was tried is accounted for: it is among the removed, in the order of the plan,
/// or there is an error for it; and the bytes are those of the removed entries, up to the largest
/// number.
pub proof fn outcome_accounts(entries: Seq<EntryView>, results: Seq<Result<(), String>>)
    requires
        results.len() <= entries.len(),
    ensures
        ({
            let outcome = outcome_of(entries, results);
            &&& outcome.removed.len() == successes(results)
            &&& outcome.removed.len() + outcome.errors.len() == results.len()
            &&& outcome.bytes_removed == (if entry_sizes(outcome.removed) > u64::MAX {
                u64::MAX as nat
            } else {
                entry_sizes(outcome.removed)
            })
            &&& forall|entry: EntryView| #[trigger]
                outcome.removed.contains(entry) ==> entries.contains(entry)
        }),
    decreases results.len(),
{
    if results.len() > 0 {
        outcome_accounts(entries, results.drop_last());
        let before = outcome_of(entries, results.drop_last());
        let outcome = outcome_of(entries, results);
        let entry = entries[results.len() - 1];
        if results.last() is Ok {
            assert(outcome.removed.drop_last() =~= before.removed);
            assert forall|e: EntryView| #[trigger] outcome.removed.contains(e) implies entries.contains(
                e,
            ) by {
                let i = choose|i: int| 0 <= i < outcome.removed.len() && outcome.removed[i] == e;
                if i < before.removed.len() {
                    assert(before.removed[i] == e);
                    assert(before.removed.contains(e));
                } else {
                    assert(entries[results.len() - 1] == e);
                }
            }
        }
    }
}

/// Where every removal succeeds, everything in the plan is removed and there are no errors.
pub proof fn unhindered_run_removes_all(entries: Seq<EntryView>, results: Seq<Result<(), String>>)
    requires
        results.len() <= entries.len(),
        forall|i: int| 0 <= i < results.len() ==> #[trigger] results[i] is Ok,
    ensures
        outcome_of(entries, results).removed == entries.take(results.len() as int),
        outcome_of(entries, results).errors.len() == 0,
    decreases results.len(),
{
    if results.len() > 0 {
        let before = results.drop_last();
        assert forall|i: int| 0 <= i < before.len() implies #[trigger] before[i] is Ok by {
            assert(before[i] == results[i]);
        }
        unhindered_run_removes_all(entries, before);
        assert(results.last() == results[results.len() - 1]);
        assert(outcome_of(entries, results).removed =~= entries.take(results.len() as int));
    } else {
        assert(entries.take(0) =~= Seq::<EntryView>::empty());
    }
}

/// A plan that is being carried out. It waits for one answer at a time.
pub struct RemovalRun {
    /// The entries that have not been done with, the next one at the back.
    todo: Vec<RemovalEntry>,
    stage: DeletionStage<String>,
    outcome: RemovalOutcome,
}

impl View for RemovalRun {
    type V = RunView;

    closed spec fn view(&self) -> RunView {
        RunView {
            todo: sorting::views_of(self.todo@.reverse()),
            stage: self.stage,
            outcome: self.outcome@,
        }
    }
}

impl RemovalRun {
    /// What carrying out the plan waits for.
    pub fn request(&self) -> (request: DeletionRequest<'_>)
        requires
            self@.wf(),
        ensures
            self@.todo.len() == 0 <==> request is Done,
            self@.todo.len() > 0 ==> request.is_for(self@.todo[0].path, self@.stage),
    {
        if self.todo.len() == 0 {
            return DeletionRequest::Done;
        }
        let next = &self.todo[self.todo.len() - 1];
        assert(self@.todo[0] == next@);
        match &self.stage {
            DeletionStage::Inspect => DeletionRequest::Inspect(&next.path),
            DeletionStage::RemoveTree => DeletionRequest::RemoveTree(&next.path),
            DeletionStage::RemoveFile => DeletionRequest::RemoveFile(&next.path),
            DeletionStage::Done(_) => DeletionRequest::Done,
        }
    }

    fn settled(self) -> (run: RemovalRun)
        requires
            self@.todo.len() > 0,
        ensures
            run@ == self@.settled(),
    {
        let mut todo = self.todo;
        let mut outcome = self.outcome;
        match self.stage {
            DeletionStage::Done(result) => {
                if let Some(entry) = todo.pop() {
                    assert(entry@ == self@.todo[0]);
                    match result {
                        Ok(_) => {
                            outcome.bytes_removed = outcome.bytes_removed.saturating_add(entry.size);
                            outcome.removed.push(entry);
                        },
                        Err(error) => {
                            outcome.errors.push(complain(&entry.path, &error));
                        },
                    }
                    assert(outcome@.removed =~= self@.outcome.after(self@.todo[0], result).removed);
                    assert(outcome@.errors =~= self@.outcome.after(self@.todo[0], result).errors);
                }
                assert(sorting::views_of(todo@.reverse()) =~= self@.todo.drop_first());
                RemovalRun { todo, stage: DeletionStage::Inspect, outcome }
            },
            stage => RemovalRun { todo, stage, outcome },
        }
    }

    /// Goes on after the path that was asked about has been looked at, or could not be.
    pub fn inspected(self, found: Result<FileKind, String>) -> (run: RemovalRun)
        requires
            self@.todo.len() > 0,
            self@.stage is Inspect,
        ensures
            run@ == self@.on_inspected(found),
            run@.wf(),
    {
        let run = RemovalRun {
            todo: self.todo,
            stage: DeletionStage::after_inspection(found),
            outcome: self.outcome,
        };
        run.settled()
    }

    /// Goes on after the path that was asked about has been removed, or could not be.
    pub fn removed(self, result: Result<(), String>) -> (run: RemovalRun)
        requires
            self@.todo.len() > 0,
            self@.stage.is_removing(),
        ensures
            run@ == self@.on_removed(result),
            run@.wf(),
    {
        let run = RemovalRun {
            todo: self.todo,
            stage: DeletionStage::Done(result),
            outcome: self.outcome,
        };
        run.settled()
    }

    /// What was removed.
    pub fn outcome(self) -> (outcome: RemovalOutcome)
        requires
            self@.todo.len() == 0,
        ensures
            outcome@ == self@.outcome,
            outcome.removed@.len() == self@.outcome.removed.len(),
            forall|i: int|
                #![trigger outcome.removed@[i]]
                0 <= i < outcome.removed@.len() ==> {
                    let entry = self@.outcome.removed[i];
                    &&& paths::path_view(outcome.removed@[i].path) == entry.path
                    &&& outcome.removed@[i].size == entry.size
                    &&& outcome.removed@[i].reason@ == entry.reason
                    &&& outcome.removed@[i].preset == entry.preset
                },
            outcome.bytes_removed == self@.outcome.bytes_removed,
            outcome.errors@.len() == self@.outcome.errors.len(),
            forall|i: int|
                #![trigger outcome.errors@[i]]
                0 <= i < outcome.errors@.len() ==> outcome.errors@[i]@ == self@.outcome.errors[i],
    {
        assert forall|i: int| #![trigger self.outcome.removed@[i]] 0 <= i
            < self.outcome.removed@.len() implies self@.outcome.removed[i]
            == self.outcome.removed@[i]@ by {}
        self.outcome
    }
}

/// Begins to carry out a plan.
#[verifier::spinoff_prover]
pub fn execute_removal_plan(plan: &RemovalPlan) -> (run: RemovalRun)
    ensures
        run@ == RunView::start(sorting::views_of(plan.entries@)),
        run@.wf(),
{
    let ghost entries = sorting::views_of(plan.entries@);
    let mut todo: Vec<RemovalEntry> = Vec::new();
    let mut i: usize = plan.entries.len();
    assert(sorting::views_of(todo@.reverse()) =~= entries.skip(i as int));
    while i > 0
        invariant
            i <= plan.entries@.len(),
            entries == sorting::views_of(plan.entries@),
            sorting::views_of(todo@.reverse()) == entries.skip(i as int),
        decreases i,
    {
        i = i - 1;
        let ghost before = todo@;
        let entry = plan.entries[i].clone();
        todo.push(entry);
        assert(todo@.reverse() =~= seq![entry] + before.reverse());
        assert(sorting::views_of(todo@.reverse()) =~= seq![entry@] + sorting::views_of(
            before.reverse(),
        ));
        assert(entries.skip(i as int) =~= seq![entries[i as int]] + entries.skip(i + 1));
    }
    assert(entries.skip(0) =~= entries);
    RemovalRun { todo, stage: DeletionStage::Inspect, outcome: RemovalOutcome::default() }
}

} // verus!
