//! Applying a patch to a snapshot: each change is made if the tree is as the
//! patch expects it, and reported as a conflict if it is not. A file is
//! rewritten only when every hunk for it was applied.

use vstd::prelude::*;
use crate::bytes::{bytes_eq, copy_bytes};
use crate::change::{FileChange, FileChangeView, PatchFile};
use crate::filter::{Filter, FilterView};
use crate::hunk::{hunks_of, Hunk, HunkView};
use crate::merge::{all_succeeded, merge_hunks, merge_spec, ApplyOutcome, Conflict};
use crate::snapshot::{drop_path, file_view, holds, position_of, put, FileEntryView, Snapshot};
use crate::text::{concat_lines, from_lines, split_lines, to_lines};

verus! {

/// The mode of a file that a patch adds.
pub const DEFAULT_MODE: u32 = 420;

/// What became of the change to one file.
#[derive(Debug, PartialEq, Eq)]
pub struct FileReport {
    /// The path of the file, and for a file that moves the path it had.
    pub path: Vec<u8>,
    /// One outcome for each hunk, and one in all where there is no hunk.
    pub outcomes: Vec<ApplyOutcome>,
    /// Whether the change was made to the tree.
    pub written: bool,
}

/// The mathematical value of a [`FileReport`].
pub struct FileReportView {
    pub path: Seq<u8>,
    pub outcomes: Seq<ApplyOutcome>,
    pub written: bool,
}

impl View for FileReport {
    type V = FileReportView;

    open spec fn view(&self) -> FileReportView {
        FileReportView { path: self.path@, outcomes: self.outcomes@, written: self.written }
    }
}

/// The values of the reports in a vector.
pub open spec fn reports_of(v: Seq<FileReport>) -> Seq<FileReportView> {
    Seq::new(v.len(), |i: int| v[i]@)
}

/// What became of a patch: the reports for its changes in their order, and
/// whether every hunk of every change was applied.
#[derive(Debug, PartialEq, Eq)]
pub struct ApplyReport {
    pub files: Vec<FileReport>,
    pub fully_applied: bool,
}

/// Every hunk of every change was applied.
pub open spec fn fully_applied(files: Seq<FileReportView>) -> bool {
    forall|i: int| 0 <= i < files.len() ==> all_succeeded((#[trigger] files[i]).outcomes)
}

/// The same outcome for each of `hunks` hunks, and once where there is none.
pub open spec fn each(hunks: int, outcome: ApplyOutcome) -> Seq<ApplyOutcome> {
    Seq::new(
        if hunks <= 0 {
            1
        } else {
            hunks as nat
        },
        |i: int| outcome,
    )
}

/// The tree after a change, and the report of the change.
pub struct StepView {
    pub tree: Seq<FileEntryView>,
    pub report: FileReportView,
}

/// The tree is left as it is, and every hunk has the given outcome.
pub open spec fn left_alone(
    tree: Seq<FileEntryView>,
    path: Seq<u8>,
    hunks: int,
    outcome: ApplyOutcome,
) -> StepView {
    StepView { tree, report: FileReportView { path, outcomes: each(hunks, outcome), written: false } }
}

/// The file of the tree at `path`.
pub open spec fn file_at(tree: Seq<FileEntryView>, path: Seq<u8>) -> FileEntryView {
    tree[position_of(tree, path)]
}

/// The hunks applied to the file at `from`, and the file written at `to` if
/// they were all applied. Where `to` is another path, the file moves there.
pub open spec fn rewrite(
    tree: Seq<FileEntryView>,
    from: Seq<u8>,
    to: Seq<u8>,
    hunks: Seq<HunkView>,
) -> StepView {
    let file = file_at(tree, from);
    let merged = merge_spec(split_lines(file.content), hunks);
    if all_succeeded(merged.outcomes) {
        StepView {
            tree: put(drop_path(tree, from), file_view(to, concat_lines(merged.lines), file.mode)),
            report: FileReportView { path: from, outcomes: merged.outcomes, written: true },
        }
    } else {
        StepView {
            tree,
            report: FileReportView { path: from, outcomes: merged.outcomes, written: false },
        }
    }
}

/// What one change makes of the tree.
///
/// A change to a path that the filter does not admit is skipped. A file is
/// added if its path is free; removed if it is there with the content that
/// the patch records; modified if it is there and every hunk finds its place;
/// moved if it is there, the new path is free and every hunk finds its place.
/// In every other case the tree stays as it is and the report says why.
pub open spec fn apply_change(
    tree: Seq<FileEntryView>,
    change: FileChangeView,
    filter: FilterView,
) -> StepView {
    let applied = ApplyOutcome::Applied { at_line: 1 };
    match change {
        FileChangeView::Added { path, content } => {
            if !filter.admits(path) {
                left_alone(tree, path, 0, ApplyOutcome::Skipped)
            } else if holds(tree, path) {
                left_alone(
                    tree,
                    path,
                    0,
                    ApplyOutcome::Conflicted { reason: Conflict::AlreadyExists },
                )
            } else {
                StepView {
                    tree: put(tree, file_view(path, content, DEFAULT_MODE)),
                    report: FileReportView { path, outcomes: seq![applied], written: true },
                }
            }
        },
        FileChangeView::Removed { path, content } => {
            if !filter.admits(path) {
                left_alone(tree, path, 0, ApplyOutcome::Skipped)
            } else if !holds(tree, path) {
                left_alone(tree, path, 0, ApplyOutcome::Conflicted { reason: Conflict::Missing })
            } else if file_at(tree, path).content != content {
                left_alone(
                    tree,
                    path,
                    0,
                    ApplyOutcome::Conflicted { reason: Conflict::LocalModification },
                )
            } else {
                StepView {
                    tree: drop_path(tree, path),
                    report: FileReportView { path, outcomes: seq![applied], written: true },
                }
            }
        },
        FileChangeView::Modified { path, hunks } => {
            if !filter.admits(path) {
                left_alone(tree, path, hunks.len() as int, ApplyOutcome::Skipped)
            } else if !holds(tree, path) {
                left_alone(
                    tree,
                    path,
                    hunks.len() as int,
                    ApplyOutcome::Conflicted { reason: Conflict::Missing },
                )
            } else {
                rewrite(tree, path, path, hunks)
            }
        },
        FileChangeView::Renamed { from, to, hunks } => {
            if !filter.admits(from) || !filter.admits(to) {
                left_alone(tree, from, hunks.len() as int, ApplyOutcome::Skipped)
            } else if !holds(tree, from) {
                left_alone(
                    tree,
                    from,
                    hunks.len() as int,
                    ApplyOutcome::Conflicted { reason: Conflict::Missing },
                )
            } else if holds(tree, to) {
                left_alone(
                    tree,
                    from,
                    hunks.len() as int,
                    ApplyOutcome::Conflicted { reason: Conflict::AlreadyExists },
                )
            } else {
                rewrite(tree, from, to, hunks)
            }
        },
    }
}

/// A tree and the reports of the changes made to it so far.
pub struct ApplyView {
    pub tree: Seq<FileEntryView>,
    pub files: Seq<FileReportView>,
}

/// The tree and the reports after the first `k` changes, made one after the
/// other.
pub open spec fn apply_upto(
    tree: Seq<FileEntryView>,
    changes: Seq<FileChangeView>,
    filter: FilterView,
    k: int,
) -> ApplyView
    decreases k,
{
    if k <= 0 {
        ApplyView { tree, files: Seq::empty() }
    } else {
        let before = apply_upto(tree, changes, filter, k - 1);
        let step = apply_change(before.tree, changes[k - 1], filter);
        ApplyView { tree: step.tree, files: before.files.push(step.report) }
    }
}

/// The tree and the reports after all changes.
pub open spec fn apply_spec(
    tree: Seq<FileEntryView>,
    changes: Seq<FileChangeView>,
    filter: FilterView,
) -> ApplyView {
    apply_upto(tree, changes, filter, changes.len() as int)
}

fn repeat(hunks: usize, outcome: ApplyOutcome) -> (outcomes: Vec<ApplyOutcome>)
    ensures
        outcomes@ == each(hunks as int, outcome),
{
    let count: usize = if hunks == 0 {
        1
    } else {
        hunks
    };
    let mut outcomes: Vec<ApplyOutcome> = Vec::new();
    let mut i: usize = 0;
    while i < count
        invariant
            i <= count,
            outcomes@.len() == i,
            forall|j: int| 0 <= j < i ==> outcomes@[j] == outcome,
        decreases count - i,
    {
        outcomes.push(outcome);
        i += 1;
    }
    assert(outcomes@ =~= each(hunks as int, outcome));
    outcomes
}

fn leave_alone(tree: Snapshot, path: &Vec<u8>, hunks: usize, outcome: ApplyOutcome) -> (step: (
    Snapshot,
    FileReport,
))
    ensures
        (StepView { tree: step.0@, report: step.1@ }) == left_alone(
            tree@,
            path@,
            hunks as int,
            outcome,
        ),
{
    (tree, FileReport { path: copy_bytes(path), outcomes: repeat(hunks, outcome), written: false })
}

fn all_success(outcomes: &Vec<ApplyOutcome>) -> (yes: bool)
    ensures
        yes == all_succeeded(outcomes@),
{
    let mut i: usize = 0;
    while i < outcomes.len()
        invariant
            i <= outcomes@.len(),
            forall|j: int| 0 <= j < i ==> (#[trigger] outcomes@[j]).succeeded(),
        decreases outcomes@.len() - i,
    {
        if !outcomes[i].is_success() {
            return false;
        }
        i += 1;
    }
    true
}

fn rewrite_file(tree: Snapshot, at: usize, from: &Vec<u8>, to: &Vec<u8>, hunks: &Vec<Hunk>) -> (step:
    (Snapshot, FileReport))
    requires
        holds(tree@, from@),
        at == position_of(tree@, from@),
    ensures
        (StepView { tree: step.0@, report: step.1@ }) == rewrite(
            tree@,
            from@,
            to@,
            hunks_of(hunks@),
        ),
{
    let file = tree.entry(at);
    let mode = file.mode;
    let lines = to_lines(&file.content);
    let merged = merge_hunks(&lines, hunks);
    if all_success(&merged.outcomes) {
        let content = from_lines(&merged.lines);
        let next = tree.without(from).with_file(copy_bytes(to), content, mode);
        (next, FileReport { path: copy_bytes(from), outcomes: merged.outcomes, written: true })
    } else {
        (tree, FileReport { path: copy_bytes(from), outcomes: merged.outcomes, written: false })
    }
}

/// Makes one change to the tree, if the tree is as the change expects it.
pub fn apply_one(tree: Snapshot, change: &FileChange, filter: &Filter) -> (step: (
    Snapshot,
    FileReport,
))
    ensures
        (StepView { tree: step.0@, report: step.1@ }) == apply_change(tree@, change@, filter@),
{
    let applied = ApplyOutcome::Applied { at_line: 1 };
    match change {
        FileChange::Added { path, content } => {
            if !filter.matches(path) {
                leave_alone(tree, path, 0, ApplyOutcome::Skipped)
            } else if tree.find(path).is_some() {
                leave_alone(
                    tree,
                    path,
                    0,
                    ApplyOutcome::Conflicted { reason: Conflict::AlreadyExists },
                )
            } else {
                let next = tree.with_file(copy_bytes(path), copy_bytes(content), DEFAULT_MODE);
                let mut outcomes: Vec<ApplyOutcome> = Vec::new();
                outcomes.push(applied);
                assert(outcomes@ =~= seq![applied]);
                (next, FileReport { path: copy_bytes(path), outcomes, written: true })
            }
        },
        FileChange::Removed { path, content } => {
            if !filter.matches(path) {
                return leave_alone(tree, path, 0, ApplyOutcome::Skipped);
            }
            match tree.find(path) {
                None => leave_alone(
                    tree,
                    path,
                    0,
                    ApplyOutcome::Conflicted { reason: Conflict::Missing },
                ),
                Some(at) => {
                    if !bytes_eq(&tree.entry(at).content, content) {
                        leave_alone(
                            tree,
                            path,
                            0,
                            ApplyOutcome::Conflicted { reason: Conflict::LocalModification },
                        )
                    } else {
                        let next = tree.without(path);
                        let mut outcomes: Vec<ApplyOutcome> = Vec::new();
                        outcomes.push(applied);
                        assert(outcomes@ =~= seq![applied]);
                        (next, FileReport { path: copy_bytes(path), outcomes, written: true })
                    }
                },
            }
        },
        FileChange::Modified { path, hunks } => {
            if !filter.matches(path) {
                return leave_alone(tree, path, hunks.len(), ApplyOutcome::Skipped);
            }
            match tree.find(path) {
                None => leave_alone(
                    tree,
                    path,
                    hunks.len(),
                    ApplyOutcome::Conflicted { reason: Conflict::Missing },
                ),
                Some(at) => rewrite_file(tree, at, path, path, hunks),
            }
        },
        FileChange::Renamed { from, to, hunks } => {
            if !filter.matches(from) || !filter.matches(to) {
                return leave_alone(tree, from, hunks.len(), ApplyOutcome::Skipped);
            }
            match tree.find(from) {
                None => leave_alone(
                    tree,
                    from,
                    hunks.len(),
                    ApplyOutcome::Conflicted { reason: Conflict::Missing },
                ),
                Some(at) => {
                    if tree.find(to).is_some() {
                        leave_alone(
                            tree,
                            from,
                            hunks.len(),
                            ApplyOutcome::Conflicted { reason: Conflict::AlreadyExists },
                        )
                    } else {
                        rewrite_file(tree, at, from, to, hunks)
                    }
                },
            }
        },
    }
}

/// Applies the patch to a copy of `target` and reports what became of each
/// change. A change that meets a conflict leaves the tree as it was; the
/// changes behind it are still made.
pub fn apply(patch: &PatchFile, target: &Snapshot, filter: &Filter) -> (done: (
    Snapshot,
    ApplyReport,
))
    ensures
        done.0@ == apply_spec(target@, patch@.changes, filter@).tree,
        reports_of(done.1.files@) == apply_spec(target@, patch@.changes, filter@).files,
        done.1.fully_applied == fully_applied(reports_of(done.1.files@)),
{
    let ghost changes = patch@.changes;
    let mut tree = target.copy();
    let mut files: Vec<FileReport> = Vec::new();
    let mut all = true;
    let mut k: usize = 0;
    assert(reports_of(files@) =~= Seq::<FileReportView>::empty());
    while k < patch.changes.len()
        invariant
            changes == patch@.changes,
            k <= patch.changes@.len(),
            (ApplyView { tree: tree@, files: reports_of(files@) }) == apply_upto(
                target@,
                changes,
                filter@,
                k as int,
            ),
            all == fully_applied(reports_of(files@)),
        decreases patch.changes@.len() - k,
    {
        assert(changes[k as int] == patch.changes@[k as int]@);
        let ghost before = reports_of(files@);
        let (next, report) = apply_one(tree, &patch.changes[k], filter);
        tree = next;
        let ok = all_success(&report.outcomes);
        files.push(report);
        proof {
            let after = reports_of(files@);
            assert(after =~= before.push(report@));
            if all && ok {
                assert forall|i: int| 0 <= i < after.len() implies all_succeeded(
                    (#[trigger] after[i]).outcomes,
                ) by {
                    if i < before.len() {
                        assert(after[i] == before[i]);
                    }
                }
            } else if !ok {
                assert(!all_succeeded(after[after.len() - 1].outcomes));
            } else {
                let i = choose|i: int|
                    0 <= i < before.len() && !all_succeeded((#[trigger] before[i]).outcomes);
                assert(after[i] == before[i]);
            }
        }
        all = all && ok;
        k += 1;
    }
    (tree, ApplyReport { files, fully_applied: all })
}

/// A patch and the tree that it is to be applied to.
#[derive(Debug, PartialEq, Eq)]
pub struct Job {
    pub patch: PatchFile,
    pub target: Snapshot,
}

/// Applies each patch to a copy of its own tree. The patches do not touch
/// one another: a conflict in one changes nothing for the others.
pub fn apply_all(jobs: &Vec<Job>, filter: &Filter) -> (done: Vec<(Snapshot, ApplyReport)>)
    ensures
        done@.len() == jobs@.len(),
        forall|i: int|
            0 <= i < jobs@.len() ==> {
                let expected = apply_spec(jobs@[i].target@, jobs@[i].patch@.changes, filter@);
                &&& (#[trigger] done@[i]).0@ == expected.tree
                &&& reports_of(done@[i].1.files@) == expected.files
                &&& done@[i].1.fully_applied == fully_applied(expected.files)
            },
{
    let mut done: Vec<(Snapshot, ApplyReport)> = Vec::new();
    let mut i: usize = 0;
    while i < jobs.len()
        invariant
            i <= jobs@.len(),
            done@.len() == i,
            forall|k: int|
                0 <= k < i ==> {
                    let expected = apply_spec(jobs@[k].target@, jobs@[k].patch@.changes, filter@);
                    &&& (#[trigger] done@[k]).0@ == expected.tree
                    &&& reports_of(done@[k].1.files@) == expected.files
                    &&& done@[k].1.fully_applied == fully_applied(expected.files)
                },
        decreases jobs@.len() - i,
    {
        let result = apply(&jobs[i].patch, &jobs[i].target, filter);
        done.push(result);
        i += 1;
    }
    done
}

} // verus!
