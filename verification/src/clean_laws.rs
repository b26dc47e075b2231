//! What holds of every plan, and of carrying it out.

use crate::clean;
use crate::clean::{CandidateView, EntryView, OutcomeView, RunView};
use crate::metadata::FileKind;
use vstd::prelude::*;

verus! {

/// All numbers of a list together.
pub open spec fn sum_of(numbers: Seq<u64>) -> int
    decreases numbers.len(),
{
    if numbers.len() == 0 {
        0
    } else {
        sum_of(numbers.drop_last()) + numbers.last()
    }
}

/// The largest number that fits, where a sum is larger.
pub open spec fn at_most_max(sum: int) -> int {
    if sum > u64::MAX {
        u64::MAX as int
    } else {
        sum
    }
}

proof fn entry_sizes_are_sums(entries: Seq<EntryView>)
    ensures
        clean::entry_sizes(entries) == sum_of(entries.map_values(|entry: EntryView| entry.size)),
    decreases entries.len(),
{
    let sizes = entries.map_values(|entry: EntryView| entry.size);
    if entries.len() > 0 {
        entry_sizes_are_sums(entries.drop_last());
        assert(sizes.drop_last() =~= entries.drop_last().map_values(|entry: EntryView| entry.size));
    }
}

/// A plan has one entry for each candidate, in their order, with its path, its size, its reason and
/// its preset, and its total is the sum of the sizes of the candidates.
pub proof fn plan_mirrors_candidates(candidates: Seq<CandidateView>)
    ensures
        clean::entries_of(candidates).len() == candidates.len(),
        forall|i: int|
            #![trigger clean::entries_of(candidates)[i]]
            #![trigger candidates[i]]
            0 <= i < candidates.len() ==> {
                let entry = clean::entries_of(candidates)[i];
                &&& entry.path == candidates[i].path
                &&& entry.size == candidates[i].size
                &&& entry.reason == candidates[i].reason
                &&& entry.preset == candidates[i].preset
            },
        clean::entry_sizes(clean::entries_of(candidates)) == sum_of(
            candidates.map_values(|candidate: CandidateView| candidate.size),
        ),
{
    let entries = clean::entries_of(candidates);
    entry_sizes_are_sums(entries);
    assert(entries.map_values(|entry: EntryView| entry.size) =~= candidates.map_values(
        |candidate: CandidateView| candidate.size,
    ));
}

/// Whether the result of an entry of a plan shows in the outcome, where `done` entries before it were
/// removed and `others` were not: one that was removed is the next among the removed, and one that
/// was not has the next of the errors, which names its path and says what stood in the way.
pub open spec fn shows(
    outcome: OutcomeView,
    entry: EntryView,
    result: Result<(), String>,
    done: int,
    others: int,
) -> bool {
    match result {
        Ok(_) => 0 <= done < outcome.removed.len() && outcome.removed[done] == entry,
        Err(error) => 0 <= others < outcome.errors.len() && outcome.errors[others]
            == entry.path.full_text() + seq![':', ' '] + error@,
    }
}

/// What carrying out a plan comes to, entry by entry: the result of each shows in the outcome, after
/// those of the entries before it and under its own path. Nothing else shows there. The bytes are
/// those of the removed entries together, up to the largest number.
pub proof fn each_entry_has_its_own_result(
    entries: Seq<EntryView>,
    results: Seq<Result<(), String>>,
)
    requires
        results.len() <= entries.len(),
    ensures
        ({
            let outcome = clean::outcome_of(entries, results);
            &&& outcome.removed.len() == clean::successes(results)
            &&& outcome.errors.len() == results.len() - clean::successes(results)
            &&& outcome.bytes_removed == at_most_max(
                sum_of(outcome.removed.map_values(|entry: EntryView| entry.size)),
            )
            &&& forall|i: int|
                #![trigger results[i]]
                0 <= i < results.len() ==> {
                    let done = clean::successes(results.take(i)) as int;
                    shows(outcome, entries[i], results[i], done, i - done)
                }
        }),
    decreases results.len(),
{
    let outcome = clean::outcome_of(entries, results);
    clean::outcome_accounts(entries, results);
    entry_sizes_are_sums(outcome.removed);
    if results.len() > 0 {
        let earlier = results.drop_last();
        let before = clean::outcome_of(entries, earlier);
        let last = results.len() - 1;
        each_entry_has_its_own_result(entries, earlier);
        clean::outcome_accounts(entries, earlier);
        assert(results.take(last) =~= earlier);
        assert(outcome == before.after(entries[last], results[last]));
        assert(shows(
            outcome,
            entries[last],
            results[last],
            before.removed.len() as int,
            before.errors.len() as int,
        )) by {
            reveal_strlit(": ");
            assert(": "@ =~= seq![':', ' ']);
        }
        assert forall|i: int| #![trigger results[i]] 0 <= i < results.len() implies ({
            let done = clean::successes(results.take(i)) as int;
            shows(outcome, entries[i], results[i], done, i - done)
        }) by {
            if i < last {
                let done = clean::successes(results.take(i)) as int;
                assert(earlier[i] == results[i]);
                assert(earlier.take(i) =~= results.take(i));
                assert(shows(before, entries[i], results[i], done, i - done));
            }
        }
    }
}

impl RunView {
    /// What an answer does while a plan is carried out. A directory is then to be removed with
    /// everything in it, anything else as a file, and both under the path of the entry that was
    /// looked at; a path that cannot be looked at is done with. Once a path is removed or could not
    /// be, the next entry is up, to be looked at first.
    pub proof fn answers_move_on(
        self,
        kind: FileKind,
        error: String,
        result: Result<(), String>,
    )
        requires
            self.todo.len() > 0,
        ensures
            ({
                let looked_at = self.on_inspected(Ok(kind));
                &&& looked_at.todo == self.todo
                &&& looked_at.outcome == self.outcome
                &&& kind == FileKind::Directory ==> looked_at.stage is RemoveTree
                &&& kind != FileKind::Directory ==> looked_at.stage is RemoveFile
            }),
            ({
                let passed = self.on_inspected(Err(error));
                &&& passed.todo == self.todo.skip(1)
                &&& passed.stage is Inspect
                &&& passed.outcome.removed == self.outcome.removed
                &&& passed.outcome.bytes_removed == self.outcome.bytes_removed
                &&& passed.outcome.errors == self.outcome.errors.push(
                    self.todo[0].path.full_text() + seq![':', ' '] + error@,
                )
            }),
            ({
                let tried = self.on_removed(result);
                &&& tried.todo == self.todo.skip(1)
                &&& tried.stage is Inspect
                &&& match result {
                    Ok(_) => {
                        &&& tried.outcome.removed == self.outcome.removed.push(self.todo[0])
                        &&& tried.outcome.bytes_removed == at_most_max(
                            self.outcome.bytes_removed + self.todo[0].size,
                        )
                        &&& tried.outcome.errors == self.outcome.errors
                    },
                    Err(error) => {
                        &&& tried.outcome.removed == self.outcome.removed
                        &&& tried.outcome.bytes_removed == self.outcome.bytes_removed
                        &&& tried.outcome.errors == self.outcome.errors.push(
                            self.todo[0].path.full_text() + seq![':', ' '] + error@,
                        )
                    },
                }
            }),
    {
        reveal_strlit(": ");
        assert(": "@ =~= seq![':', ' ']);
        assert(self.todo.drop_first() =~= self.todo.skip(1));
    }

    /// Carrying out a plan begins with all of its entries to be done, none removed and no errors.
    pub proof fn start_has_all_ahead(entries: Seq<EntryView>)
        ensures
            RunView::start(entries).todo == entries,
            RunView::start(entries).stage is Inspect,
            RunView::start(entries).outcome.removed.len() == 0,
            RunView::start(entries).outcome.bytes_removed == 0,
            RunView::start(entries).outcome.errors.len() == 0,
            RunView::start(entries).is_after(entries, Seq::empty()),
    {
        assert(entries.skip(0) =~= entries);
    }
}

} // verus!
