//! The difference between two snapshots: the files that were added, removed
//! and modified, in the order of their paths.

use vstd::prelude::*;
use crate::bytes::{bytes_eq, bytes_less, copy_bytes, lemma_lex_trichotomy, lex_less};
use crate::change::{
    changes_of, FileChange, FileChangeView, PackageIdentity, PatchFile, PatchFileView,
    PackageIdentityView,
};
use crate::filter::{Filter, FilterView};
use crate::rename::{content_hunks, detect_moves, hunks_for_contents, pair_moves};
use crate::snapshot::{admitted, entry_ok, snapshot_ok, FileEntryView, Snapshot};
use crate::wellformed::{keys_ascend, lemma_diff_in_order};

verus! {

/// The change that adds the file `e`.
pub open spec fn added(e: FileEntryView) -> FileChangeView {
    FileChangeView::Added { path: e.path, content: e.content }
}

/// The change that removes the file `e`.
pub open spec fn removed(e: FileEntryView) -> FileChangeView {
    FileChangeView::Removed { path: e.path, content: e.content }
}

/// The change that turns the file `old` into the file `new` at the same path.
pub open spec fn modified(old: FileEntryView, new: FileEntryView) -> FileChangeView {
    FileChangeView::Modified { path: old.path, hunks: content_hunks(old.content, new.content) }
}

/// The changes between the files of `p` from the `i`-th on and the files of
/// `e` from the `j`-th on, without regard to files that moved: a path that
/// only `e` has is added, one that only `p` has is removed, one that both have
/// is modified if the content differs and gives no change if it does not.
pub open spec fn changes_from(
    p: Seq<FileEntryView>,
    e: Seq<FileEntryView>,
    i: int,
    j: int,
) -> Seq<FileChangeView>
    decreases (p.len() - i) + (e.len() - j),
{
    if i < 0 || j < 0 || i > p.len() || j > e.len() || (i >= p.len() && j >= e.len()) {
        Seq::empty()
    } else if i >= p.len() {
        seq![added(e[j])] + changes_from(p, e, i, j + 1)
    } else if j >= e.len() {
        seq![removed(p[i])] + changes_from(p, e, i + 1, j)
    } else if lex_less(p[i].path, e[j].path) {
        seq![removed(p[i])] + changes_from(p, e, i + 1, j)
    } else if lex_less(e[j].path, p[i].path) {
        seq![added(e[j])] + changes_from(p, e, i, j + 1)
    } else if p[i].content == e[j].content {
        changes_from(p, e, i + 1, j + 1)
    } else {
        seq![modified(p[i], e[j])] + changes_from(p, e, i + 1, j + 1)
    }
}

/// The changes that turn the snapshot `p` into the snapshot `e`: the files
/// that were added, removed and modified, and in place of a removal and an
/// addition of contents that are alike the move of one file.
pub open spec fn diff_spec(p: Seq<FileEntryView>, e: Seq<FileEntryView>) -> Seq<FileChangeView> {
    pair_moves(changes_from(p, e, 0, 0), 0)
}

/// Two snapshots that hold the same files from the `i`-th on do not differ
/// from there on.
pub proof fn lemma_changes_same(p: Seq<FileEntryView>, e: Seq<FileEntryView>, i: int)
    requires
        0 <= i <= p.len(),
        p.len() == e.len(),
        forall|k: int| i <= k < p.len() ==> p[k] == e[k],
    ensures
        changes_from(p, e, i, i) == Seq::<FileChangeView>::empty(),
    decreases p.len() - i,
{
    if i < p.len() {
        lemma_lex_trichotomy(p[i].path, p[i].path);
        lemma_changes_same(p, e, i + 1);
    }
}

/// A snapshot does not differ from itself.
pub proof fn lemma_diff_same(s: Seq<FileEntryView>)
    ensures
        diff_spec(s, s) == Seq::<FileChangeView>::empty(),
{
    lemma_changes_same(s, s, 0);
}

/// The changes that turn the snapshot `pristine` into the snapshot `edited`,
/// in the order of their paths: a file that moved stands at the path it had.
pub fn diff(pristine: &Snapshot, edited: &Snapshot) -> (changes: Vec<FileChange>)
    ensures
        changes_of(changes@) == diff_spec(pristine@, edited@),
        keys_ascend(changes_of(changes@)),
{
    let n = pristine.len();
    let m = edited.len();
    let ghost p = pristine@;
    let ghost e = edited@;
    let mut changes: Vec<FileChange> = Vec::new();
    let mut i: usize = 0;
    let mut j: usize = 0;
    assert(changes_of(changes@) =~= Seq::<FileChangeView>::empty());
    while i < n || j < m
        invariant
            n == p.len(),
            m == e.len(),
            p == pristine@,
            e == edited@,
            snapshot_ok(p),
            snapshot_ok(e),
            i <= n,
            j <= m,
            changes_of(changes@) + changes_from(p, e, i as int, j as int) == changes_from(
                p,
                e,
                0,
                0,
            ),
        decreases (n - i) + (m - j),
    {
        let ghost before = changes_of(changes@);
        let ghost rest = changes_from(p, e, i as int, j as int);
        if i >= n {
            let file = edited.entry(j);
            changes.push(
                FileChange::Added {
                    path: copy_bytes(&file.path),
                    content: copy_bytes(&file.content),
                },
            );
            j += 1;
        } else if j >= m {
            let file = pristine.entry(i);
            changes.push(
                FileChange::Removed {
                    path: copy_bytes(&file.path),
                    content: copy_bytes(&file.content),
                },
            );
            i += 1;
        } else {
            let old = pristine.entry(i);
            let new = edited.entry(j);
            if bytes_less(&old.path, &new.path) {
                changes.push(
                    FileChange::Removed {
                        path: copy_bytes(&old.path),
                        content: copy_bytes(&old.content),
                    },
                );
                i += 1;
            } else if bytes_less(&new.path, &old.path) {
                changes.push(
                    FileChange::Added {
                        path: copy_bytes(&new.path),
                        content: copy_bytes(&new.content),
                    },
                );
                j += 1;
            } else {
                if !bytes_eq(&old.content, &new.content) {
                    assert(entry_ok(p[i as int]) && entry_ok(e[j as int]));
                    let hunks = hunks_for_contents(
                        &old.content,
                        old.is_binary,
                        &new.content,
                        new.is_binary,
                    );
                    changes.push(FileChange::Modified { path: copy_bytes(&old.path), hunks });
                }
                i += 1;
                j += 1;
            }
        }
        proof {
            let after = changes_of(changes@);
            let next = changes_from(p, e, i as int, j as int);
            if after.len() == before.len() {
                assert(after =~= before);
                assert(rest == next);
            } else {
                assert(after =~= before + seq![after.last()]);
                assert(rest == seq![after.last()] + next);
                assert(after + next =~= before + rest);
            }
        }
    }
    assert(changes_of(changes@) + Seq::<FileChangeView>::empty() =~= changes_of(changes@));
    proof {
        lemma_diff_in_order(p, e);
    }
    detect_moves(changes)
}

/// The patch for `package` that records how `edited` differs from `pristine`
/// in the files that the filter admits.
pub open spec fn generate_spec(
    pristine: Seq<FileEntryView>,
    edited: Seq<FileEntryView>,
    filter: FilterView,
    package: PackageIdentityView,
) -> PatchFileView {
    PatchFileView {
        package,
        changes: diff_spec(
            admitted(pristine, filter, pristine.len() as int),
            admitted(edited, filter, edited.len() as int),
        ),
    }
}

/// Records how `edited` differs from `pristine`, in the files that the filter
/// admits, as a patch for `package`.
pub fn generate(
    pristine: &Snapshot,
    edited: &Snapshot,
    filter: &Filter,
    package: PackageIdentity,
) -> (patch: PatchFile)
    ensures
        patch@ == generate_spec(pristine@, edited@, filter@, package@),
        keys_ascend(patch@.changes),
{
    let old = pristine.filtered(filter);
    let new = edited.filtered(filter);
    let changes = diff(&old, &new);
    PatchFile { package, changes }
}

} // verus!
